//! What holds of every resolved layout.
use crate::error::LinkError;
use crate::input::{ObjectView, SymbolSection};
use crate::layout_laws;
use crate::pe_grouping;
use crate::pe_layout::LayoutView;
use crate::pe_symbols;
use crate::pe_writer;
use vstd::prelude::*;

verus! {

/// Whether a symbol is what defines an external name.
pub open spec fn is_definition_of(
    objects: Seq<ObjectView>,
    name: Seq<char>,
    place: (usize, usize),
) -> bool {
    let (i, s) = (place.0 as int, place.1 as int);
    &&& pe_symbols::has_symbol(objects, i, s)
    &&& pe_symbols::defines(objects, i, s)
    &&& objects[i].symbols[s].name == Some(name)
}

/// Where the names come from that have been found among the first symbols.
proof fn lemma_definitions(
    objects: Seq<ObjectView>,
    known: Map<Seq<char>, (usize, usize)>,
    i: int,
    s: int,
)
    requires
        pe_grouping::is_indexable(objects),
        0 <= i <= objects.len(),
        i < objects.len() ==> 0 <= s <= objects[i].symbols.len(),
        i == objects.len() ==> s == 0,
        pe_symbols::definitions(objects, known, i, s) is Ok,
    ensures
        ({
            let found = pe_symbols::definitions(objects, known, i, s)->Ok_0;
            &&& forall|name: Seq<char>| #[trigger]
                found.contains_key(name) ==> (known.contains_key(name) && found[name]
                    == known[name]) || is_definition_of(objects, name, found[name])
            &&& forall|a: int, b: int|
                pe_symbols::has_symbol(objects, a, b) && pe_grouping::comes_before(a, b, i, s)
                    && #[trigger] pe_symbols::defines(objects, a, b) ==> found.contains_key(
                    objects[a].symbols[b].name->0,
                ) && found[objects[a].symbols[b].name->0] == (a as usize, b as usize)
        }),
    decreases i, s,
{
    let found = pe_symbols::definitions(objects, known, i, s)->Ok_0;
    if s > 0 {
        lemma_definitions(objects, known, i, s - 1);
        let before = pe_symbols::definitions(objects, known, i, s - 1)->Ok_0;
        assert(objects[i].symbols.len() <= usize::MAX);
        if pe_symbols::defines(objects, i, s - 1) {
            let own = objects[i].symbols[s - 1].name->0;
            assert(is_definition_of(objects, own, (i as usize, (s - 1) as usize)));
            assert forall|name: Seq<char>| #[trigger] found.contains_key(name) implies (
            known.contains_key(name) && found[name] == known[name]) || is_definition_of(
                objects,
                name,
                found[name],
            ) by {
                if name != own {
                    assert(before.contains_key(name));
                }
            }
            assert forall|a: int, b: int|
                pe_symbols::has_symbol(objects, a, b) && pe_grouping::comes_before(a, b, i, s)
                    && #[trigger] pe_symbols::defines(objects, a, b) implies found.contains_key(
                objects[a].symbols[b].name->0,
            ) && found[objects[a].symbols[b].name->0] == (a as usize, b as usize) by {
                if !(a == i && b == s - 1) {
                    assert(before.contains_key(objects[a].symbols[b].name->0));
                }
            }
        }
    } else if i > 0 {
        lemma_definitions(objects, known, i - 1, objects[i - 1].symbols.len() as int);
    }
}

/// After resolving, every name that counts as defined is either an old one or is defined by the
/// symbol that it leads to, and every symbol that defines a name is what the name leads to. So no
/// two symbols define one name.
pub proof fn definitions_are_exact(layout: LayoutView, result: LayoutView)
    requires
        pe_grouping::is_indexable(layout.objects),
        pe_symbols::resolved(layout) == Ok::<LayoutView, LinkError>(result),
    ensures
        forall|name: Seq<char>| #[trigger]
            result.global_definitions.contains_key(name) ==> (
            layout.global_definitions.contains_key(name) && result.global_definitions[name]
                == layout.global_definitions[name]) || is_definition_of(
                layout.objects,
                name,
                result.global_definitions[name],
            ),
        forall|a: int, b: int|
            pe_symbols::has_symbol(layout.objects, a, b) && #[trigger] pe_symbols::defines(
                layout.objects,
                a,
                b,
            ) ==> result.global_definitions.contains_key(layout.objects[a].symbols[b].name->0)
                && result.global_definitions[layout.objects[a].symbols[b].name->0] == (
                a as usize,
                b as usize,
            ),
{
    lemma_definitions(
        layout.objects,
        layout.global_definitions,
        layout.objects.len() as int,
        0,
    );
}

/// Where two symbols define one name, the symbols cannot be resolved.
pub proof fn duplicates_are_refused(
    layout: LayoutView,
    i: int,
    s: int,
    j: int,
    t: int,
)
    requires
        pe_grouping::is_indexable(layout.objects),
        pe_symbols::has_symbol(layout.objects, i, s),
        pe_symbols::has_symbol(layout.objects, j, t),
        i != j || s != t,
        pe_symbols::defines(layout.objects, i, s),
        pe_symbols::defines(layout.objects, j, t),
        layout.objects[i].symbols[s].name == layout.objects[j].symbols[t].name,
    ensures
        pe_symbols::resolved(layout) is Err,
{
    if let Ok(result) = pe_symbols::resolved(layout) {
        definitions_are_exact(layout, result);
        assert(layout.objects[i].symbols.len() <= usize::MAX);
        assert(layout.objects[j].symbols.len() <= usize::MAX);
    }
}

/// Where no error is met, every symbol has an address or lies nowhere.
proof fn lemma_own_addresses(layout: LayoutView, i: int, s: int, a: int, b: int)
    requires
        0 <= i <= layout.objects.len(),
        i < layout.objects.len() ==> 0 <= s <= layout.objects[i].symbols.len(),
        i == layout.objects.len() ==> s == 0,
        pe_symbols::own_address_error(layout, i, s) is None,
        pe_symbols::has_symbol(layout.objects, a, b),
        pe_grouping::comes_before(a, b, i, s),
    ensures
        pe_symbols::own_address(layout, a, b) is Ok,
    decreases i, s,
{
    if s > 0 {
        if !(a == i && b == s - 1) {
            lemma_own_addresses(layout, i, s - 1, a, b);
        }
    } else if i > 0 {
        lemma_own_addresses(layout, i - 1, layout.objects[i - 1].symbols.len() as int, a, b);
    }
}

/// A symbol that defines a name has an address once the symbols are resolved: that of its section
/// plus its value.
pub proof fn definitions_have_addresses(layout: LayoutView, result: LayoutView, i: int, s: int)
    requires
        pe_grouping::is_indexable(layout.objects),
        pe_symbols::outputs_exist(layout),
        pe_symbols::resolved(layout) == Ok::<LayoutView, LinkError>(result),
        pe_symbols::has_symbol(layout.objects, i, s),
        pe_symbols::defines(layout.objects, i, s),
        forall|k: int|
            0 <= k < layout.sections.len() ==> (#[trigger] layout.sections[k]).virtual_address > 0,
    ensures
        ({
            let symbol = layout.objects[i].symbols[s];
            let j = pe_symbols::symbol_section(
                layout.objects[i],
                symbol.section.section_id()->0,
            )->0 as int;
            let section = layout.objects[i].sections[j];
            &&& pe_grouping::has_section(layout.objects, i, j)
            &&& section.output_section is Some
            &&& result.symbol_addresses[i][s] is Some
            &&& result.symbol_addresses[i][s]->0 == layout.image_base
                + layout.sections[section.output_section->0 as int].virtual_address
                + section.output_offset + symbol.value
        }),
{
    lemma_own_addresses(layout, layout.objects.len() as int, 0, i, s);
    let symbol = layout.objects[i].symbols[s];
    let id = symbol.section.section_id()->0;
    assert(layout.objects[i].sections.len() <= usize::MAX);
    pe_symbols::lemma_last_section(
        layout.objects[i].sections,
        layout.objects[i].sections.len() as int,
        id,
    );
    let j = pe_symbols::symbol_section(layout.objects[i], id)->0 as int;
    assert(pe_grouping::has_section(layout.objects, i, j));
    let section = layout.objects[i].sections[j];
    let k = section.output_section->0 as int;
    assert(layout.sections[k].virtual_address > 0);
    assert(result.symbol_addresses[i][s] == pe_symbols::resolved_address(layout, i, s));
}

/// The symbols of a new layout can be resolved only to a consistent layout, in which every other
/// part is as it was.
pub proof fn resolved_layouts_are_consistent(
    base_address: Option<u64>,
    objects: Seq<ObjectView>,
    layout: LayoutView,
    result: LayoutView,
)
    requires
        layout_laws::is_layout_of(layout, base_address, objects),
        pe_symbols::resolved(layout) == Ok::<LayoutView, LinkError>(result),
    ensures
        pe_symbols::is_consistent(result),
        pe_writer::contributions_exist(result),
        result == (LayoutView {
            global_definitions: result.global_definitions,
            symbol_addresses: result.symbol_addresses,
            ..layout
        }),
{
    layout_laws::layouts_are_consistent(base_address, objects, layout);
    assert(pe_grouping::is_indexable(layout.objects)) by {
        assert forall|i: int|
            0 <= i < layout.objects.len() implies (#[trigger] layout.objects[i]).sections.len()
            <= usize::MAX && layout.objects[i].symbols.len() <= usize::MAX by {
            layout_laws::objects_stay(base_address, objects, layout, i);
            assert(objects[i].sections.len() <= usize::MAX);
        }
    }
    definitions_are_exact(layout, result);
    assert forall|k: int| 0 <= k < layout.sections.len() implies (
    #[trigger] layout.sections[k]).virtual_address > 0 by {
        layout_laws::section_lies_in_image(base_address, objects, layout, k);
    }
    assert forall|name: Seq<char>| #[trigger] result.global_definitions.contains_key(name) implies {
        let (i, s) = result.global_definitions[name];
        &&& pe_symbols::has_symbol(result.objects, i as int, s as int)
        &&& result.symbol_addresses[i as int][s as int] is Some
            || !result.objects[i as int].symbols[s as int].is_undefined
    } by {
        let (i, s) = result.global_definitions[name];
        assert(is_definition_of(layout.objects, name, (i, s)));
        definitions_have_addresses(layout, result, i as int, s as int);
    }
}

/// An undefined symbol without an address of its own stands for the address of the symbol that
/// defines its name.
pub proof fn undefined_symbols_take_their_definition(
    base_address: Option<u64>,
    objects: Seq<ObjectView>,
    layout: LayoutView,
    result: LayoutView,
    i: int,
    s: int,
    j: int,
    t: int,
)
    requires
        layout_laws::is_layout_of(layout, base_address, objects),
        pe_symbols::resolved(layout) == Ok::<LayoutView, LinkError>(result),
        pe_symbols::has_symbol(layout.objects, i, s),
        layout.objects[i].symbols[s].is_undefined,
        result.symbol_addresses[i][s] is None,
        pe_symbols::has_symbol(layout.objects, j, t),
        pe_symbols::defines(layout.objects, j, t),
        layout.objects[i].symbols[s].name == layout.objects[j].symbols[t].name,
    ensures
        pe_symbols::address_of(result, i, s) is Ok,
        pe_symbols::address_of(result, i, s) == pe_symbols::address_of(result, j, t),
{
    resolved_layouts_are_consistent(base_address, objects, layout, result);
    assert(pe_grouping::is_indexable(layout.objects)) by {
        assert forall|a: int|
            0 <= a < layout.objects.len() implies (#[trigger] layout.objects[a]).sections.len()
            <= usize::MAX && layout.objects[a].symbols.len() <= usize::MAX by {
            layout_laws::objects_stay(base_address, objects, layout, a);
            assert(objects[a].sections.len() <= usize::MAX);
        }
    }
    assert(layout.objects[j].symbols.len() <= usize::MAX);
    definitions_are_exact(layout, result);
    layout_laws::layouts_are_consistent(base_address, objects, layout);
    assert forall|k: int| 0 <= k < layout.sections.len() implies (
    #[trigger] layout.sections[k]).virtual_address > 0 by {
        layout_laws::section_lies_in_image(base_address, objects, layout, k);
    }
    definitions_have_addresses(layout, result, j, t);
}

/// A symbol that has neither an address of its own nor a definition elsewhere stands for nothing.
pub proof fn missing_definitions_are_refused(layout: LayoutView, i: int, s: int)
    requires
        pe_symbols::has_symbol(layout.objects, i, s),
        layout.symbol_addresses[i][s] is None,
        layout.objects[i].symbols[s].name matches Some(name) ==> !(
        layout.objects[i].symbols[s].is_undefined && layout.global_definitions.contains_key(name)),
    ensures
        pe_symbols::address_of(layout, i, s) == Err::<u64, LinkError>(
            LinkError::UnresolvedSymbol { object: i as usize, symbol: s as usize },
        ),
{
}

// ---- addresses ----

/// Whether the `j`-th section of the object is the one that symbols mean by an index: the last one
/// that has it.
pub open spec fn is_meant_by(object: ObjectView, j: int, id: usize) -> bool {
    &&& 0 <= j < object.sections.len()
    &&& object.sections[j].index == id
    &&& forall|l: int| j < l < object.sections.len() ==> (#[trigger] object.sections[l]).index != id
}

/// The section that symbols mean is the one that is found for them.
proof fn lemma_meant_section(object: ObjectView, j: int, id: usize, n: int)
    requires
        is_meant_by(object, j, id),
        object.sections.len() <= usize::MAX,
        j < n <= object.sections.len(),
    ensures
        pe_symbols::last_section(object.sections, n, id) == Some(j as usize),
    decreases n,
{
    if n - 1 > j {
        assert(object.sections[n - 1].index != id);
        lemma_meant_section(object, j, id, n - 1);
    }
}

/// Where no section has the index, none is found.
proof fn lemma_no_section_meant(object: ObjectView, id: usize, n: int)
    requires
        0 <= n <= object.sections.len(),
        forall|l: int|
            0 <= l < object.sections.len() ==> (#[trigger] object.sections[l]).index != id,
    ensures
        pe_symbols::last_section(object.sections, n, id) is None,
    decreases n,
{
    if n > 0 {
        assert(object.sections[n - 1].index != id);
        lemma_no_section_meant(object, id, n - 1);
    }
}

/// After resolving, every symbol that lies in a section of the output, local or external, defined
/// or not, has the address of its place there: the image base, plus the address of the output
/// section, plus the offset of the input section, plus its value. Only where that is zero the
/// symbol keeps what it had.
pub proof fn symbols_in_sections_have_addresses(
    layout: LayoutView,
    result: LayoutView,
    i: int,
    s: int,
    id: usize,
    j: int,
    k: usize,
)
    requires
        pe_symbols::resolved(layout) == Ok::<LayoutView, LinkError>(result),
        0 <= i < layout.objects.len(),
        layout.objects[i].sections.len() <= usize::MAX,
        0 <= s < layout.objects[i].symbols.len(),
        layout.objects[i].symbols[s].section == SymbolSection::Section(id),
        is_meant_by(layout.objects[i], j, id),
        layout.objects[i].sections[j].output_section == Some(k),
    ensures
        ({
            let address = layout.image_base + layout.sections[k as int].virtual_address
                + layout.objects[i].sections[j].output_offset + layout.objects[i].symbols[s].value;
            &&& address <= u64::MAX
            &&& result.symbol_addresses[i][s] == (if address != 0 {
                Some(address as u64)
            } else {
                layout.symbol_addresses[i][s]
            })
        }),
{
    lemma_own_addresses(layout, layout.objects.len() as int, 0, i, s);
    lemma_meant_section(layout.objects[i], j, id, layout.objects[i].sections.len() as int);
    assert(result.symbol_addresses[i][s] == pe_symbols::resolved_address(layout, i, s));
}

/// After resolving, an absolute symbol has its value for its address, unless that is zero. All
/// other symbols that do not lie in a section of the output keep what they had.
pub proof fn other_symbols_have_their_value_or_nothing(
    layout: LayoutView,
    result: LayoutView,
    i: int,
    s: int,
)
    requires
        pe_symbols::resolved(layout) == Ok::<LayoutView, LinkError>(result),
        0 <= i < layout.objects.len(),
        layout.objects[i].sections.len() <= usize::MAX,
        0 <= s < layout.objects[i].symbols.len(),
    ensures
        ({
            let symbol = layout.objects[i].symbols[s];
            &&& symbol.section == SymbolSection::Absolute ==> result.symbol_addresses[i][s] == (
            if symbol.value != 0 {
                Some(symbol.value)
            } else {
                layout.symbol_addresses[i][s]
            })
            &&& symbol.section != SymbolSection::Absolute && !(symbol.section is Section)
                ==> result.symbol_addresses[i][s] == layout.symbol_addresses[i][s]
            &&& symbol.section matches SymbolSection::Section(id) ==> forall|j: int|
                #[trigger] is_meant_by(layout.objects[i], j, id)
                    && layout.objects[i].sections[j].output_section is None
                    ==> result.symbol_addresses[i][s] == layout.symbol_addresses[i][s]
        }),
{
    let symbol = layout.objects[i].symbols[s];
    lemma_own_addresses(layout, layout.objects.len() as int, 0, i, s);
    assert(result.symbol_addresses[i][s] == pe_symbols::resolved_address(layout, i, s));
    if let SymbolSection::Section(id) = symbol.section {
        assert forall|j: int|
            #[trigger] is_meant_by(layout.objects[i], j, id)
                && layout.objects[i].sections[j].output_section is None implies
            result.symbol_addresses[i][s] == layout.symbol_addresses[i][s] by {
            lemma_meant_section(layout.objects[i], j, id, layout.objects[i].sections.len() as int);
        }
    }
}

/// Resolving changes the definitions and the addresses, and nothing else.
pub proof fn resolving_keeps_the_rest(layout: LayoutView, result: LayoutView)
    requires
        pe_symbols::resolved(layout) == Ok::<LayoutView, LinkError>(result),
    ensures
        result.image_base == layout.image_base,
        result.machine == layout.machine,
        result.sections == layout.sections,
        result.objects == layout.objects,
        result.entry_point_rva == layout.entry_point_rva,
        result.size_of_headers == layout.size_of_headers,
        result.size_of_image == layout.size_of_image,
        result.file_size == layout.file_size,
        result.symbol_addresses.len() == layout.objects.len(),
        forall|i: int|
            0 <= i < layout.objects.len() ==> (#[trigger] result.symbol_addresses[i]).len()
                == layout.objects[i].symbols.len(),
{
}

// ---- definitions ----

/// Whether the symbol counts as the definition of a name: it is a definition, not local, and lies
/// in a section that is part of the output.
pub open spec fn is_external_definition(object: ObjectView, s: int, name: Seq<char>) -> bool {
    &&& 0 <= s < object.symbols.len()
    &&& object.symbols[s].is_definition
    &&& !object.symbols[s].is_local
    &&& object.symbols[s].name == Some(name)
    &&& object.symbols[s].section is Section
    &&& exists|j: int|
        #[trigger] is_meant_by(object, j, object.symbols[s].section->Section_0)
            && object.sections[j].output_section is Some
}

/// The section that is found for symbols is the one that they mean.
proof fn lemma_found_section(object: ObjectView, id: usize, n: int)
    requires
        0 <= n <= object.sections.len() <= usize::MAX,
    ensures
        match pe_symbols::last_section(object.sections, n, id) {
            Some(j) => j < n && object.sections[j as int].index == id && forall|l: int|
                j < l < n ==> (#[trigger] object.sections[l]).index != id,
            None => forall|l: int| 0 <= l < n ==> (#[trigger] object.sections[l]).index != id,
        },
    decreases n,
{
    if n > 0 {
        lemma_found_section(object, id, n - 1);
    }
}

/// The symbols that define a name are those that count as definitions.
proof fn lemma_defines(objects: Seq<ObjectView>, i: int, s: int)
    requires
        pe_symbols::has_symbol(objects, i, s),
        objects[i].sections.len() <= usize::MAX,
    ensures
        pe_symbols::defines(objects, i, s) <==> objects[i].symbols[s].name is Some
            && is_external_definition(objects[i], s, objects[i].symbols[s].name->0),
{
    let symbol = objects[i].symbols[s];
    let n = objects[i].sections.len() as int;
    if symbol.section is Section {
        let id = symbol.section->Section_0;
        lemma_found_section(objects[i], id, n);
        if pe_symbols::defines(objects, i, s) {
            let j = pe_symbols::symbol_section(objects[i], id)->0 as int;
            assert(is_meant_by(objects[i], j, id));
        }
        if symbol.name is Some && is_external_definition(objects[i], s, symbol.name->0) {
            let j = choose|j: int|
                #[trigger] is_meant_by(objects[i], j, id)
                    && objects[i].sections[j].output_section is Some;
            lemma_meant_section(objects[i], j, id, n);
        }
    }
}

/// After resolving, a name counts as defined exactly if it did before or a symbol defines it, and
/// it leads to that symbol.
pub proof fn names_lead_to_their_definitions(
    layout: LayoutView,
    result: LayoutView,
    name: Seq<char>,
)
    requires
        pe_grouping::is_indexable(layout.objects),
        pe_symbols::resolved(layout) == Ok::<LayoutView, LinkError>(result),
    ensures
        result.global_definitions.contains_key(name) <==> layout.global_definitions.contains_key(
            name,
        ) || exists|i: int, s: int|
            0 <= i < layout.objects.len() && #[trigger] is_external_definition(
                layout.objects[i],
                s,
                name,
            ),
        forall|i: int, s: int|
            0 <= i < layout.objects.len() && #[trigger] is_external_definition(
                layout.objects[i],
                s,
                name,
            ) ==> result.global_definitions[name] == (i as usize, s as usize),
        layout.global_definitions.contains_key(name) ==> result.global_definitions[name]
            == layout.global_definitions[name],
{
    definitions_are_exact(layout, result);
    if layout.global_definitions.contains_key(name) {
        lemma_known_names(
            layout.objects,
            layout.global_definitions,
            layout.objects.len() as int,
            0,
            name,
        );
    }
    if result.global_definitions.contains_key(name) && !layout.global_definitions.contains_key(
        name,
    ) {
        let (i, s) = result.global_definitions[name];
        assert(layout.objects[i as int].sections.len() <= usize::MAX);
        lemma_defines(layout.objects, i as int, s as int);
        assert(is_external_definition(layout.objects[i as int], s as int, name));
    }
    assert forall|i: int, s: int|
        0 <= i < layout.objects.len() && #[trigger] is_external_definition(
            layout.objects[i],
            s,
            name,
        ) implies result.global_definitions.contains_key(name) && result.global_definitions[name]
        == (i as usize, s as usize) by {
        assert(layout.objects[i].sections.len() <= usize::MAX);
        lemma_defines(layout.objects, i, s);
        assert(pe_symbols::has_symbol(layout.objects, i, s));
        assert(pe_symbols::defines(layout.objects, i, s));
    }
}

/// Names that are known stay as they are.
proof fn lemma_known_names(
    objects: Seq<ObjectView>,
    known: Map<Seq<char>, (usize, usize)>,
    i: int,
    s: int,
    name: Seq<char>,
)
    requires
        0 <= i <= objects.len(),
        i < objects.len() ==> 0 <= s <= objects[i].symbols.len(),
        i == objects.len() ==> s == 0,
        pe_symbols::definitions(objects, known, i, s) is Ok,
        known.contains_key(name),
    ensures
        pe_symbols::definitions(objects, known, i, s)->Ok_0.contains_key(name),
        pe_symbols::definitions(objects, known, i, s)->Ok_0[name] == known[name],
    decreases i, s,
{
    if s > 0 {
        lemma_known_names(objects, known, i, s - 1, name);
    } else if i > 0 {
        lemma_known_names(objects, known, i - 1, objects[i - 1].symbols.len() as int, name);
    }
}

// ---- when symbols can be resolved ----

/// Whether the symbol has a place, if it lies in a section: its object has that section, and if the
/// section is part of the output, the address fits in 64 bits.
pub open spec fn has_place(layout: LayoutView, i: int, s: int) -> bool {
    let object = layout.objects[i];
    object.symbols[s].section matches SymbolSection::Section(id) ==> exists|j: int|
        {
            &&& #[trigger] is_meant_by(object, j, id)
            &&& object.sections[j].output_section matches Some(k) ==> layout.image_base
                + layout.sections[k as int].virtual_address + object.sections[j].output_offset
                + object.symbols[s].value <= u64::MAX
        }
}

/// A symbol has an address, or lies nowhere, exactly if it has a place.
proof fn lemma_has_place(layout: LayoutView, i: int, s: int)
    requires
        pe_symbols::has_symbol(layout.objects, i, s),
        layout.objects[i].sections.len() <= usize::MAX,
    ensures
        pe_symbols::own_address(layout, i, s) is Ok <==> has_place(layout, i, s),
        pe_symbols::own_address(layout, i, s) matches Err(e) ==> {
            &&& layout.objects[i].symbols[s].section is Section
            &&& ({
                let id = layout.objects[i].symbols[s].section->Section_0;
                if forall|l: int|
                    0 <= l < layout.objects[i].sections.len() ==> (
                    #[trigger] layout.objects[i].sections[l]).index != id {
                    e == (LinkError::MissingSymbolSection { object: i as usize, section_id: id })
                } else {
                    e == LinkError::ArithmeticOverflow
                }
            })
        },
{
    let object = layout.objects[i];
    let n = object.sections.len() as int;
    if let SymbolSection::Section(id) = object.symbols[s].section {
        lemma_found_section(object, id, n);
        match pe_symbols::symbol_section(object, id) {
            Some(j) => {
                assert(is_meant_by(object, j as int, id));
                assert forall|l: int| #[trigger] is_meant_by(object, l, id) implies l == j by {
                    if l < j {
                        assert(object.sections[j as int].index != id);
                    }
                }
            },
            None => {},
        }
    }
}

/// Whether two different symbols define one name, or one defines a name that is known already.
pub open spec fn is_defined_twice(layout: LayoutView, i: int, s: int, name: Seq<char>) -> bool {
    &&& 0 <= i < layout.objects.len()
    &&& is_external_definition(layout.objects[i], s, name)
    &&& layout.global_definitions.contains_key(name) || exists|j: int, t: int|
        {
            &&& 0 <= j < layout.objects.len()
            &&& (i != j || s != t)
            &&& #[trigger] is_external_definition(layout.objects[j], t, name)
        }
}

/// Definitions can be collected where no name is defined twice.
proof fn lemma_definitions_succeed(layout: LayoutView, i: int, s: int)
    requires
        pe_grouping::is_indexable(layout.objects),
        0 <= i <= layout.objects.len(),
        i < layout.objects.len() ==> 0 <= s <= layout.objects[i].symbols.len(),
        i == layout.objects.len() ==> s == 0,
    ensures
        match pe_symbols::definitions(layout.objects, layout.global_definitions, i, s) {
            Ok(_) => true,
            Err(e) => exists|a: int, b: int, name: Seq<char>|
                #[trigger] is_defined_twice(layout, a, b, name) && is_error_of(
                    layout,
                    a,
                    b,
                    name,
                    e,
                ),
        },
    decreases i, s,
{
    let objects = layout.objects;
    let known = layout.global_definitions;
    if s > 0 {
        lemma_definitions_succeed(layout, i, s - 1);
        if pe_symbols::definitions(objects, known, i, s - 1) is Ok {
            lemma_definitions(objects, known, i, s - 1);
            assert(objects[i].sections.len() <= usize::MAX);
            lemma_defines(objects, i, s - 1);
            let found = pe_symbols::definitions(objects, known, i, s - 1)->Ok_0;
            let name = objects[i].symbols[s - 1].name->0;
            if pe_symbols::defines(objects, i, s - 1) && found.contains_key(name) {
                if !(known.contains_key(name) && found[name] == known[name]) {
                    let (a, b) = (found[name].0 as int, found[name].1 as int);
                    assert(is_definition_of(objects, name, found[name]));
                    assert(objects[a].sections.len() <= usize::MAX);
                    lemma_defines(objects, a, b);
                    assert(is_external_definition(objects[a], b, name));
                    lemma_found_earlier(objects, known, i, s - 1, name);
                }
                assert(is_defined_twice(layout, i, s - 1, name));
                assert(pe_symbols::definitions(objects, known, i, s)->Err_0
                    == (LinkError::DuplicateSymbol {
                    previous_object: found[name].0,
                    object: i as usize,
                    symbol: (s - 1) as usize,
                }));
                assert(is_error_of(
                    layout,
                    i,
                    s - 1,
                    name,
                    pe_symbols::definitions(objects, known, i, s)->Err_0,
                ));
            }
        }
    } else if i > 0 {
        lemma_definitions_succeed(layout, i - 1, objects[i - 1].symbols.len() as int);
    }
}

/// Names that are not known are defined by earlier symbols.
proof fn lemma_found_earlier(
    objects: Seq<ObjectView>,
    known: Map<Seq<char>, (usize, usize)>,
    i: int,
    s: int,
    name: Seq<char>,
)
    requires
        pe_grouping::is_indexable(objects),
        0 <= i <= objects.len(),
        i < objects.len() ==> 0 <= s <= objects[i].symbols.len(),
        i == objects.len() ==> s == 0,
        pe_symbols::definitions(objects, known, i, s) is Ok,
        pe_symbols::definitions(objects, known, i, s)->Ok_0.contains_key(name),
    ensures
        ({
            let place = pe_symbols::definitions(objects, known, i, s)->Ok_0[name];
            known.contains_key(name) && place == known[name] || pe_grouping::comes_before(
                place.0 as int,
                place.1 as int,
                i,
                s,
            )
        }),
    decreases i, s,
{
    if s > 0 {
        let before = pe_symbols::definitions(objects, known, i, s - 1)->Ok_0;
        assert(objects[i].symbols.len() <= usize::MAX);
        if before.contains_key(name) {
            lemma_found_earlier(objects, known, i, s - 1, name);
        }
    } else if i > 0 {
        lemma_found_earlier(objects, known, i - 1, objects[i - 1].symbols.len() as int, name);
    }
}

/// Whether the error says that the symbol defines a name that a symbol of another object, or one
/// in front of it, defines too.
pub open spec fn is_error_of(
    layout: LayoutView,
    i: int,
    s: int,
    name: Seq<char>,
    e: LinkError,
) -> bool {
    &&& e matches LinkError::DuplicateSymbol { previous_object, object, symbol }
    &&& object == i
    &&& symbol == s
    &&& {
        ||| layout.global_definitions.contains_key(name) && layout.global_definitions[name].0
            == previous_object
        ||| previous_object < layout.objects.len() && exists|t: int|
            #[trigger] is_external_definition(layout.objects[previous_object as int], t, name)
    }
}

/// Where every symbol has a place, there is no error.
proof fn lemma_places_suffice(layout: LayoutView, i: int, s: int)
    requires
        pe_grouping::is_indexable(layout.objects),
        0 <= i <= layout.objects.len(),
        i < layout.objects.len() ==> 0 <= s <= layout.objects[i].symbols.len(),
        i == layout.objects.len() ==> s == 0,
    ensures
        pe_symbols::own_address_error(layout, i, s) matches Some(e) ==> exists|a: int, b: int|
            #[trigger] pe_symbols::has_symbol(layout.objects, a, b)
                && pe_symbols::own_address(layout, a, b) == Err::<Option<u64>, LinkError>(e),
    decreases i, s,
{
    if s > 0 {
        lemma_places_suffice(layout, i, s - 1);
        assert(pe_symbols::has_symbol(layout.objects, i, s - 1));
    } else if i > 0 {
        lemma_places_suffice(layout, i - 1, layout.objects[i - 1].symbols.len() as int);
    }
}

/// The symbols of a layout can be resolved exactly if no name is defined twice and every symbol
/// that lies in a section has a place.
pub proof fn symbols_resolve_where_they_have_places(layout: LayoutView)
    requires
        pe_grouping::is_indexable(layout.objects),
    ensures
        pe_symbols::resolved(layout) is Ok <==> {
            &&& forall|i: int, s: int, name: Seq<char>|
                !#[trigger] is_defined_twice(layout, i, s, name)
            &&& forall|i: int, s: int|
                0 <= i < layout.objects.len() && 0 <= s < layout.objects[i].symbols.len()
                    ==> #[trigger] has_place(layout, i, s)
        },
{
    let n = layout.objects.len() as int;
    lemma_definitions_succeed(layout, n, 0);
    lemma_places_suffice(layout, n, 0);
    if pe_symbols::resolved(layout) is Ok {
        let result = pe_symbols::resolved(layout)->Ok_0;
        assert forall|i: int, s: int, name: Seq<char>|
            !#[trigger] is_defined_twice(layout, i, s, name) by {
            if is_defined_twice(layout, i, s, name) {
                lemma_not_defined_twice(layout, i, s, name);
            }
        }
        assert forall|i: int, s: int|
            0 <= i < layout.objects.len() && 0 <= s < layout.objects[i].symbols.len() implies
            #[trigger] has_place(layout, i, s) by {
            assert(layout.objects[i].sections.len() <= usize::MAX);
            lemma_own_addresses(layout, n, 0, i, s);
            lemma_has_place(layout, i, s);
        }
    } else if pe_symbols::definitions(layout.objects, layout.global_definitions, n, 0) is Ok {
        let e = pe_symbols::own_address_error(layout, n, 0)->0;
        let (a, b) = choose|a: int, b: int|
            #[trigger] pe_symbols::has_symbol(layout.objects, a, b)
                && pe_symbols::own_address(layout, a, b) == Err::<Option<u64>, LinkError>(e);
        assert(layout.objects[a].sections.len() <= usize::MAX);
        lemma_has_place(layout, a, b);
        assert(!has_place(layout, a, b));
    }
}

/// Where a name is defined twice, definitions cannot be collected.
proof fn lemma_not_defined_twice(layout: LayoutView, i: int, s: int, name: Seq<char>)
    requires
        pe_grouping::is_indexable(layout.objects),
        is_defined_twice(layout, i, s, name),
    ensures
        pe_symbols::resolved(layout) is Err,
{
    let objects = layout.objects;
    if let Ok(result) = pe_symbols::resolved(layout) {
        assert(objects[i].sections.len() <= usize::MAX);
        lemma_defines(objects, i, s);
        if layout.global_definitions.contains_key(name) {
            lemma_known_names_not_defined(
                objects,
                layout.global_definitions,
                objects.len() as int,
                0,
                i,
                s,
            );
        } else {
            let (j, t) = choose|j: int, t: int|
                {
                    &&& 0 <= j < objects.len()
                    &&& (i != j || s != t)
                    &&& #[trigger] is_external_definition(objects[j], t, name)
                };
            assert(objects[j].sections.len() <= usize::MAX);
            lemma_defines(objects, j, t);
            duplicates_are_refused(layout, i, s, j, t);
        }
    }
}

/// Where definitions can be collected, no symbol defines a name that was known.
proof fn lemma_known_names_not_defined(
    objects: Seq<ObjectView>,
    known: Map<Seq<char>, (usize, usize)>,
    i: int,
    s: int,
    a: int,
    b: int,
)
    requires
        0 <= i <= objects.len(),
        i < objects.len() ==> 0 <= s <= objects[i].symbols.len(),
        i == objects.len() ==> s == 0,
        pe_symbols::definitions(objects, known, i, s) is Ok,
        pe_symbols::has_symbol(objects, a, b),
        pe_grouping::comes_before(a, b, i, s),
        pe_symbols::defines(objects, a, b),
    ensures
        !known.contains_key(objects[a].symbols[b].name->0),
    decreases i, s,
{
    if s > 0 {
        if a == i && b == s - 1 {
            if known.contains_key(objects[a].symbols[b].name->0) {
                lemma_known_names(objects, known, i, s - 1, objects[a].symbols[b].name->0);
            }
        } else {
            lemma_known_names_not_defined(objects, known, i, s - 1, a, b);
        }
    } else if i > 0 {
        lemma_known_names_not_defined(
            objects,
            known,
            i - 1,
            objects[i - 1].symbols.len() as int,
            a,
            b,
        );
    }
}

/// The error says what is wrong: which symbol defines a name again, or in which object a symbol
/// lies in a section that the object does not have, or that an address does not fit in 64 bits.
pub proof fn resolving_says_what_is_wrong(layout: LayoutView, e: LinkError)
    requires
        pe_grouping::is_indexable(layout.objects),
        pe_symbols::resolved(layout) == Err::<LayoutView, LinkError>(e),
    ensures
        match e {
            LinkError::DuplicateSymbol { .. } => exists|i: int, s: int, name: Seq<char>|
                #[trigger] is_defined_twice(layout, i, s, name) && is_error_of(
                    layout,
                    i,
                    s,
                    name,
                    e,
                ),
            LinkError::MissingSymbolSection { object, section_id } => {
                &&& object < layout.objects.len()
                &&& exists|s: int|
                    0 <= s < layout.objects[object as int].symbols.len() && (
                    #[trigger] layout.objects[object as int].symbols[s]).section
                        == SymbolSection::Section(section_id)
                &&& forall|l: int|
                    0 <= l < layout.objects[object as int].sections.len() ==> (
                    #[trigger] layout.objects[object as int].sections[l]).index != section_id
            },
            LinkError::ArithmeticOverflow => exists|i: int, s: int|
                0 <= i < layout.objects.len() && 0 <= s < layout.objects[i].symbols.len()
                    && !#[trigger] has_place(layout, i, s),
            _ => false,
        },
{
    let n = layout.objects.len() as int;
    lemma_definitions_succeed(layout, n, 0);
    lemma_places_suffice(layout, n, 0);
    if pe_symbols::definitions(layout.objects, layout.global_definitions, n, 0) is Ok {
        let (a, b) = choose|a: int, b: int|
            #[trigger] pe_symbols::has_symbol(layout.objects, a, b)
                && pe_symbols::own_address(layout, a, b) == Err::<Option<u64>, LinkError>(e);
        assert(layout.objects[a].sections.len() <= usize::MAX);
        lemma_has_place(layout, a, b);
        assert(!has_place(layout, a, b));
        assert(layout.objects[a].symbols[b].section is Section);
    }
}

// ---- references ----

/// A symbol stands for its own address, if it has one; else, if it is undefined, for the address
/// of the symbol that its name leads to.
pub proof fn symbols_stand_for_addresses(layout: LayoutView, i: int, s: int)
    requires
        0 <= i < layout.objects.len(),
        0 <= s,
    ensures
        ({
            let symbol = layout.objects[i].symbols[s];
            let r = pe_symbols::address_of(layout, i, s);
            &&& s >= layout.objects[i].symbols.len() ==> r == Err::<u64, LinkError>(
                LinkError::MissingSymbol { object: i as usize, symbol: s as usize },
            )
            &&& s < layout.objects[i].symbols.len() ==> {
                &&& layout.symbol_addresses[i][s] matches Some(address) ==> r == Ok::<
                    u64,
                    LinkError,
                >(address)
                &&& layout.symbol_addresses[i][s] is None && symbol.is_undefined
                    && symbol.name is Some && layout.global_definitions.contains_key(
                    symbol.name->0,
                ) ==> {
                    let (a, b) = layout.global_definitions[symbol.name->0];
                    match layout.symbol_addresses[a as int][b as int] {
                        Some(address) => r == Ok::<u64, LinkError>(address),
                        None => r is Err,
                    }
                }
            }
        }),
{
}

// ---- the entry point ----

/// The entry point is the symbol that was asked for by name; without that, it is
/// `_DllMainCRTStartup` for a library, and for a program the first that is defined of
/// `mainCRTStartup`, `_mainCRTStartup` and `WinMainCRTStartup`. Where none is defined, there is no
/// entry point.
pub proof fn entry_points_are_looked_for_by_name(layout: LayoutView, entry: Option<Seq<char>>)
    ensures
        ({
            let defined = layout.global_definitions;
            let none = Err::<u32, LinkError>(LinkError::EntryPointNotFound);
            let first = "mainCRTStartup"@;
            let second = "_mainCRTStartup"@;
            let third = "WinMainCRTStartup"@;
            let of_library = "_DllMainCRTStartup"@;
            &&& forall|is_dll: bool, name: Seq<char>|
                entry == Some(name) ==> #[trigger] pe_symbols::entry_point(layout, Some(name), is_dll)
                    == (if defined.contains_key(name) {
                    entry_at(layout, name, 0)
                } else {
                    none
                })
            &&& entry is None ==> pe_symbols::entry_point(layout, entry, true) == (
            if defined.contains_key(of_library) {
                entry_at(layout, of_library, 0)
            } else {
                none
            })
            &&& entry is None ==> pe_symbols::entry_point(layout, entry, false) == (
            if defined.contains_key(first) {
                entry_at(layout, first, 0)
            } else if defined.contains_key(second) {
                entry_at(layout, second, 1)
            } else if defined.contains_key(third) {
                entry_at(layout, third, 2)
            } else {
                none
            })
        }),
{
    reveal_with_fuel(pe_symbols::entry_from, 5);
}

/// The distance from the image base of the symbol that the name leads to, if it fits in 32 bits.
pub open spec fn entry_at(layout: LayoutView, name: Seq<char>, candidate: usize) -> Result<
    u32,
    LinkError,
> {
    let (i, s) = layout.global_definitions[name];
    match pe_symbols::address_of(layout, i as int, s as int) {
        Err(e) => Err(e),
        Ok(address) => {
            let above_base = address - layout.image_base;
            if 0 <= above_base <= 0xFFFF_FFFF {
                Ok(above_base as u32)
            } else {
                Err(LinkError::EntryPointOutsideImage { candidate })
            }
        },
    }
}

} // verus!
