//! Symbols and their addresses.
use crate::args::PeArgs;
use crate::error::LinkError;
use crate::input;
use crate::input::{InputObject, InputRelocationTarget, ObjectView, SectionView, SymbolSection};
use crate::pe_grouping;
use crate::pe_layout::{LayoutView, PeLayout};
use std::collections::HashMap;
use vstd::hash_map::StringHashMap;
use vstd::prelude::*;

verus! {

// ---- what a layout has to be like ----

/// Whether every section that claims a place in the output claims one that exists.
pub open spec fn outputs_exist(layout: LayoutView) -> bool {
    forall|i: int, j: int|
        pe_grouping::has_section(layout.objects, i, j) ==> {
            let section = #[trigger] layout.objects[i].sections[j];
            section.output_section matches Some(k) ==> k < layout.sections.len()
        }
}

/// Whether there is a place for the address of every symbol.
pub open spec fn addresses_match(layout: LayoutView) -> bool {
    &&& layout.symbol_addresses.len() == layout.objects.len()
    &&& forall|i: int|
        0 <= i < layout.objects.len() ==> (#[trigger] layout.symbol_addresses[i]).len()
            == layout.objects[i].symbols.len()
}

/// Whether the object has that symbol.
pub open spec fn has_symbol(objects: Seq<ObjectView>, i: int, s: int) -> bool {
    0 <= i < objects.len() && 0 <= s < objects[i].symbols.len()
}

/// Whether every name that counts as defined leads to a symbol that exists and that needs no other
/// definition: it has an address, or it is not undefined.
pub open spec fn definitions_end(layout: LayoutView) -> bool {
    forall|name: Seq<char>| #[trigger]
        layout.global_definitions.contains_key(name) ==> {
            let (i, s) = layout.global_definitions[name];
            &&& has_symbol(layout.objects, i as int, s as int)
            &&& layout.symbol_addresses[i as int][s as int] is Some
                || !layout.objects[i as int].symbols[s as int].is_undefined
        }
}

/// Whether a layout is consistent: the places, symbols and addresses that it speaks of exist.
pub open spec fn is_consistent(layout: LayoutView) -> bool {
    outputs_exist(layout) && addresses_match(layout) && definitions_end(layout)
}

// ---- addresses of sections ----

/// The address of section `j` of object `i`.
pub open spec fn section_address(layout: LayoutView, i: int, j: int) -> Result<u64, LinkError> {
    let section = layout.objects[i].sections[j];
    match section.output_section {
        None => Err(LinkError::SectionNotInOutput { object: i as usize, section: j as usize }),
        Some(k) => {
            let address = layout.image_base + layout.sections[k as int].virtual_address
                + section.output_offset;
            if address > u64::MAX {
                Err(LinkError::ArithmeticOverflow)
            } else {
                Ok(address as u64)
            }
        },
    }
}

/// Returns the address of an input section.
pub fn input_section_address(
    layout: &PeLayout,
    object_index: usize,
    section_index: usize,
) -> (r: Result<u64, LinkError>)
    requires
        outputs_exist(layout@),
        pe_grouping::has_section(layout@.objects, object_index as int, section_index as int),
    ensures
        r == section_address(layout@, object_index as int, section_index as int),
{
    let section = &layout.objects[object_index].sections[section_index];
    assert(layout@.objects[object_index as int].sections[section_index as int] == section@);
    match section.output_section {
        None => Err(
            LinkError::SectionNotInOutput { object: object_index, section: section_index },
        ),
        Some(k) => {
            let virtual_address = layout.sections[k].virtual_address;
            let inside: u64 = virtual_address as u64 + section.output_offset as u64;
            if layout.image_base > u64::MAX - inside {
                Err(LinkError::ArithmeticOverflow)
            } else {
                Ok(layout.image_base + inside)
            }
        },
    }
}

/// The last of the first `n` sections that has the index `id`.
pub open spec fn last_section(sections: Seq<SectionView>, n: int, id: usize) -> Option<usize>
    decreases n,
{
    if n <= 0 {
        None
    } else if sections[n - 1].index == id {
        Some((n - 1) as usize)
    } else {
        last_section(sections, n - 1, id)
    }
}

/// The section of the object that symbols mean by `id`: the last one with that index.
pub open spec fn symbol_section(object: ObjectView, id: usize) -> Option<usize> {
    last_section(object.sections, object.sections.len() as int, id)
}

/// The first section behind the first `n` that has the index `id`.
pub open spec fn first_section(sections: Seq<SectionView>, n: int, id: usize) -> Option<usize>
    decreases sections.len() - n,
{
    if n < 0 || n >= sections.len() {
        None
    } else if sections[n].index == id {
        Some(n as usize)
    } else {
        first_section(sections, n + 1, id)
    }
}

/// The section of the object that relocations mean by `id`: the first one with that index.
pub open spec fn relocation_section(object: ObjectView, id: usize) -> Option<usize> {
    first_section(object.sections, 0, id)
}

/// What `last_section` finds is in range.
pub proof fn lemma_last_section(sections: Seq<SectionView>, n: int, id: usize)
    requires
        0 <= n <= sections.len() <= usize::MAX,
    ensures
        last_section(sections, n, id) matches Some(j) ==> j < n && sections[j as int].index == id,
    decreases n,
{
    if n > 0 {
        lemma_last_section(sections, n - 1, id);
    }
}

/// Whether the map holds the positions of the sections of the object by their indices.
pub open spec fn is_position_map(object: ObjectView, map: Map<usize, usize>) -> bool {
    &&& forall|id: usize| map.contains_key(id) <==> #[trigger] symbol_section(object, id) is Some
    &&& forall|id: usize|
        map.contains_key(id) ==> #[trigger] symbol_section(object, id) == Some(map[id])
    &&& forall|id: usize| map.contains_key(id) ==> #[trigger] map[id] < object.sections.len()
}

/// Returns the positions of the sections of an object by their indices.
fn section_positions(object: &InputObject) -> (map: HashMap<usize, usize>)
    ensures
        is_position_map(object@, map@),
{
    broadcast use vstd::std_specs::hash::group_hash_axioms;

    let mut map: HashMap<usize, usize> = HashMap::new();
    let mut j: usize = 0;
    while j < object.sections.len()
        invariant
            j <= object.sections@.len(),
            forall|id: usize|
                map@.contains_key(id) <==> #[trigger] last_section(
                    object@.sections,
                    j as int,
                    id,
                ) is Some,
            forall|id: usize|
                map@.contains_key(id) ==> #[trigger] last_section(object@.sections, j as int, id)
                    == Some(map@[id]),
            forall|id: usize| map@.contains_key(id) ==> #[trigger] map@[id] < j,
        decreases object.sections@.len() - j,
    {
        assert(object@.sections[j as int] == object.sections@[j as int]@);
        map.insert(object.sections[j].index, j);
        assert forall|id: usize| #[trigger]
            last_section(object@.sections, j + 1, id) == (if id
            == object.sections@[j as int].index {
            Some(j)
        } else {
            last_section(object@.sections, j as int, id)
        }) by {}
        j += 1;
    }
    map
}

/// Returns the position of the section that relocations mean by an index.
fn find_section(object: &InputObject, id: usize) -> (r: Option<usize>)
    ensures
        r == relocation_section(object@, id),
        r matches Some(j) ==> j < object.sections@.len(),
{
    let mut j: usize = 0;
    while j < object.sections.len()
        invariant
            j <= object.sections@.len(),
            relocation_section(object@, id) == first_section(object@.sections, j as int, id),
        decreases object.sections@.len() - j,
    {
        assert(object@.sections[j as int] == object.sections@[j as int]@);
        if object.sections[j].index == id {
            return Some(j);
        }
        j += 1;
    }
    None
}

// ---- definitions ----

/// Whether symbol `s` of object `i` defines an external name: it says so, and it lies in a section
/// that is part of the output.
pub open spec fn defines(objects: Seq<ObjectView>, i: int, s: int) -> bool {
    let symbol = objects[i].symbols[s];
    &&& symbol.is_definition
    &&& !symbol.is_local
    &&& symbol.name is Some
    &&& symbol.section.section_id() is Some
    &&& symbol_section(objects[i], symbol.section.section_id()->0) is Some
    &&& objects[i].sections[symbol_section(
        objects[i],
        symbol.section.section_id()->0,
    )->0 as int].output_section is Some
}

/// The names that the symbols of the first `i` objects, and the first `s` symbols of the object
/// behind them, define in addition to those in `known`.
pub open spec fn definitions(
    objects: Seq<ObjectView>,
    known: Map<Seq<char>, (usize, usize)>,
    i: int,
    s: int,
) -> Result<Map<Seq<char>, (usize, usize)>, LinkError>
    decreases i, s,
{
    if s > 0 {
        match definitions(objects, known, i, s - 1) {
            Err(e) => Err(e),
            Ok(found) => if !defines(objects, i, s - 1) {
                Ok(found)
            } else {
                let name = objects[i].symbols[s - 1].name->0;
                if found.contains_key(name) {
                    Err(
                        LinkError::DuplicateSymbol {
                            previous_object: found[name].0,
                            object: i as usize,
                            symbol: (s - 1) as usize,
                        },
                    )
                } else {
                    Ok(found.insert(name, (i as usize, (s - 1) as usize)))
                }
            },
        }
    } else if i > 0 {
        definitions(objects, known, i - 1, objects[i - 1].symbols.len() as int)
    } else {
        Ok(known)
    }
}

/// Whether symbol `s` of object `i` is the first that defines a name anew, and `after` are the
/// definitions with it in place of the one before.
pub open spec fn duplicates_at(
    objects: Seq<ObjectView>,
    known: Map<Seq<char>, (usize, usize)>,
    after: Map<Seq<char>, (usize, usize)>,
    i: int,
    s: int,
    e: LinkError,
) -> bool {
    &&& has_symbol(objects, i, s)
    &&& defines(objects, i, s)
    &&& definitions(objects, known, i, s) matches Ok(found)
    &&& found.contains_key(objects[i].symbols[s].name->0)
    &&& e == (LinkError::DuplicateSymbol {
        previous_object: found[objects[i].symbols[s].name->0].0,
        object: i as usize,
        symbol: s as usize,
    })
    &&& after == found.insert(objects[i].symbols[s].name->0, (i as usize, s as usize))
}

/// An error stays.
proof fn lemma_definitions_error(
    objects: Seq<ObjectView>,
    known: Map<Seq<char>, (usize, usize)>,
    i: int,
    s: int,
)
    requires
        0 <= i < objects.len(),
        0 <= s <= objects[i].symbols.len(),
        definitions(objects, known, i, s) is Err,
    ensures
        definitions(objects, known, objects.len() as int, 0) == definitions(objects, known, i, s),
    decreases objects.len() - i, objects[i].symbols.len() - s,
{
    if s < objects[i].symbols.len() {
        assert(definitions(objects, known, i, s + 1) == definitions(objects, known, i, s));
        lemma_definitions_error(objects, known, i, s + 1);
    } else {
        assert(definitions(objects, known, i + 1, 0) == definitions(objects, known, i, s));
        if i + 1 < objects.len() {
            lemma_definitions_error(objects, known, i + 1, 0);
        }
    }
}

/// Returns whether a symbol defines an external name.
fn defines_name(object: &InputObject, s: usize, positions: &HashMap<usize, usize>) -> (r: bool)
    requires
        s < object.symbols@.len(),
        is_position_map(object@, positions@),
    ensures
        forall|objects: Seq<ObjectView>, i: int|
            #![trigger defines(objects, i, s as int)]
            0 <= i < objects.len() && objects[i] == object@ ==> r == defines(objects, i, s as int),
{
    broadcast use vstd::std_specs::hash::group_hash_axioms;

    let symbol = &object.symbols[s];
    assert(object@.symbols[s as int] == symbol@);
    if !symbol.is_definition || symbol.is_local || symbol.name.is_none() {
        return false;
    }
    match symbol.section.index() {
        None => false,
        Some(id) => {
            assert(positions@.contains_key(id) <==> symbol_section(object@, id) is Some);
            match positions.get(&id) {
                None => false,
                Some(position) => {
                    assert(positions@[id] < object@.sections.len());
                    let section = &object.sections[*position];
                    assert(object@.sections[*position as int] == section@);
                    section.output_section.is_some()
                },
            }
        },
    }
}

/// Adds the names that the objects define.
fn collect_definitions(
    objects: &Vec<InputObject>,
    positions: &Vec<HashMap<usize, usize>>,
    found: &mut StringHashMap<(usize, usize)>,
) -> (r: Result<(), LinkError>)
    requires
        positions@.len() == objects@.len(),
        forall|a: int| 0 <= a < objects@.len() ==> is_position_map(
            objects@[a]@,
            #[trigger] positions@[a]@,
        ),
    ensures
        match r {
            Ok(()) => definitions(
                input::object_views(objects@),
                old(found)@,
                objects@.len() as int,
                0,
            ) == Ok::<Map<Seq<char>, (usize, usize)>, LinkError>(final(found)@),
            Err(e) => {
                &&& definitions(
                    input::object_views(objects@),
                    old(found)@,
                    objects@.len() as int,
                    0,
                ) == Err::<Map<Seq<char>, (usize, usize)>, LinkError>(e)
                &&& exists|i: int, s: int| #[trigger]
                    duplicates_at(
                        input::object_views(objects@),
                        old(found)@,
                        final(found)@,
                        i,
                        s,
                        e,
                    )
            },
        },
{
    let ghost views = input::object_views(objects@);
    let ghost known = found@;
    let mut i: usize = 0;
    while i < objects.len()
        invariant
            i <= objects@.len(),
            positions@.len() == objects@.len(),
            forall|a: int| 0 <= a < objects@.len() ==> is_position_map(
                objects@[a]@,
                #[trigger] positions@[a]@,
            ),
            views == input::object_views(objects@),
            known == old(found)@,
            definitions(views, known, i as int, 0) == Ok::<
                Map<Seq<char>, (usize, usize)>,
                LinkError,
            >(found@),
        decreases objects@.len() - i,
    {
        let object = &objects[i];
        assert(views[i as int] == object@);
        let mut s: usize = 0;
        while s < object.symbols.len()
            invariant
                i < objects@.len(),
                s <= object.symbols@.len(),
                object == objects@[i as int],
                positions@.len() == objects@.len(),
                is_position_map(object@, positions@[i as int]@),
                views == input::object_views(objects@),
                views[i as int] == object@,
                known == old(found)@,
                definitions(views, known, i as int, s as int) == Ok::<
                    Map<Seq<char>, (usize, usize)>,
                    LinkError,
                >(found@),
            decreases object.symbols@.len() - s,
        {
            let symbol = &object.symbols[s];
            assert(views[i as int].symbols[s as int] == symbol@);
            if defines_name(object, s, &positions[i]) {
                if let Some(name) = &symbol.name {
                    if let Some(previous) = found.get(name.as_str()) {
                        let previous_object = previous.0;
                        let e = LinkError::DuplicateSymbol {
                            previous_object,
                            object: i,
                            symbol: s,
                        };
                        found.insert(name.clone(), (i, s));
                        proof {
                            lemma_definitions_error(views, known, i as int, s + 1);
                            assert(duplicates_at(views, known, found@, i as int, s as int, e));
                        }
                        return Err(e);
                    }
                    found.insert(name.clone(), (i, s));
                }
            }
            s += 1;
        }
        i += 1;
    }
    Ok(())
}

// ---- addresses of symbols ----

/// The address, if it is not zero.
pub open spec fn nonzero(address: u64) -> Option<u64> {
    if address != 0 {
        Some(address)
    } else {
        None
    }
}

/// The address that symbol `s` of object `i` has of its own.
pub open spec fn own_address(layout: LayoutView, i: int, s: int) -> Result<Option<u64>, LinkError> {
    let symbol = layout.objects[i].symbols[s];
    match symbol.section {
        SymbolSection::Section(id) => match symbol_section(layout.objects[i], id) {
            None => Err(LinkError::MissingSymbolSection { object: i as usize, section_id: id }),
            Some(j) => if layout.objects[i].sections[j as int].output_section is None {
                Ok(None)
            } else {
                match section_address(layout, i, j as int) {
                    Err(e) => Err(e),
                    Ok(base) => if base + symbol.value > u64::MAX {
                        Err(LinkError::ArithmeticOverflow)
                    } else {
                        Ok(nonzero((base + symbol.value) as u64))
                    },
                }
            },
        },
        SymbolSection::Absolute => Ok(nonzero(symbol.value)),
        _ => Ok(None),
    }
}

/// Why the symbols of the first `i` objects, and the first `s` symbols of the object behind them,
/// cannot all be given their addresses.
pub open spec fn own_address_error(layout: LayoutView, i: int, s: int) -> Option<LinkError>
    decreases i, s,
{
    if s > 0 {
        match own_address_error(layout, i, s - 1) {
            Some(e) => Some(e),
            None => match own_address(layout, i, s - 1) {
                Err(e) => Some(e),
                Ok(_) => None,
            },
        }
    } else if i > 0 {
        own_address_error(layout, i - 1, layout.objects[i - 1].symbols.len() as int)
    } else {
        None
    }
}

/// An error stays.
proof fn lemma_own_address_error(layout: LayoutView, i: int, s: int)
    requires
        0 <= i < layout.objects.len(),
        0 <= s <= layout.objects[i].symbols.len(),
        own_address_error(layout, i, s) is Some,
    ensures
        own_address_error(layout, layout.objects.len() as int, 0) == own_address_error(
            layout,
            i,
            s,
        ),
    decreases layout.objects.len() - i, layout.objects[i].symbols.len() - s,
{
    if s < layout.objects[i].symbols.len() {
        assert(own_address_error(layout, i, s + 1) == own_address_error(layout, i, s));
        lemma_own_address_error(layout, i, s + 1);
    } else {
        assert(own_address_error(layout, i + 1, 0) == own_address_error(layout, i, s));
        if i + 1 < layout.objects.len() {
            lemma_own_address_error(layout, i + 1, 0);
        }
    }
}

/// The address of symbol `s` of object `i` once the symbols are resolved.
pub open spec fn resolved_address(layout: LayoutView, i: int, s: int) -> Option<u64> {
    match own_address(layout, i, s) {
        Ok(Some(address)) => Some(address),
        _ => layout.symbol_addresses[i][s],
    }
}

/// The addresses once those of the symbols in front of symbol `s` of object `i` have been found.
pub open spec fn addresses_before(layout: LayoutView, i: int, s: int) -> Seq<Seq<Option<u64>>> {
    Seq::new(
        layout.objects.len(),
        |a: int|
            Seq::new(
                layout.objects[a].symbols.len(),
                |b: int|
                    if pe_grouping::comes_before(a, b, i, s) {
                        resolved_address(layout, a, b)
                    } else {
                        layout.symbol_addresses[a][b]
                    },
            ),
    )
}

/// Whether symbol `s` of object `i` is the first whose address cannot be found.
pub open spec fn address_fails_at(layout: LayoutView, i: int, s: int, e: LinkError) -> bool {
    &&& has_symbol(layout.objects, i, s)
    &&& own_address_error(layout, i, s) is None
    &&& own_address(layout, i, s) == Err::<Option<u64>, LinkError>(e)
}

/// Whether resolving the symbols stops with an error and leaves `after` of the layout: with the
/// definitions up to and with the first that comes twice, or with all of them and with the
/// addresses in front of the first that cannot be found. All else stays.
pub open spec fn resolving_stops(layout: LayoutView, after: LayoutView, e: LinkError) -> bool {
    let all = definitions(
        layout.objects,
        layout.global_definitions,
        layout.objects.len() as int,
        0,
    );
    &&& after == (LayoutView {
        global_definitions: after.global_definitions,
        symbol_addresses: after.symbol_addresses,
        ..layout
    })
    &&& match all {
        Err(_) => {
            &&& after.symbol_addresses == layout.symbol_addresses
            &&& exists|i: int, s: int| #[trigger]
                duplicates_at(
                    layout.objects,
                    layout.global_definitions,
                    after.global_definitions,
                    i,
                    s,
                    e,
                )
        },
        Ok(found) => {
            &&& after.global_definitions == found
            &&& exists|i: int, s: int| #[trigger]
                address_fails_at(layout, i, s, e) && after.symbol_addresses == addresses_before(
                    layout,
                    i,
                    s,
                )
        },
    }
}

/// The layout with its symbols resolved.
pub open spec fn resolved(layout: LayoutView) -> Result<LayoutView, LinkError> {
    match definitions(layout.objects, layout.global_definitions, layout.objects.len() as int, 0) {
        Err(e) => Err(e),
        Ok(found) => match own_address_error(layout, layout.objects.len() as int, 0) {
            Some(e) => Err(e),
            None => Ok(
                LayoutView {
                    global_definitions: found,
                    symbol_addresses: Seq::new(
                        layout.objects.len(),
                        |i: int|
                            Seq::new(
                                layout.objects[i].symbols.len(),
                                |s: int| resolved_address(layout, i, s),
                            ),
                    ),
                    ..layout
                },
            ),
        },
    }
}

/// Returns the address that a symbol has of its own.
fn compute_own_address(
    layout: &PeLayout,
    object_index: usize,
    symbol_index: usize,
    positions: &HashMap<usize, usize>,
) -> (r: Result<Option<u64>, LinkError>)
    requires
        outputs_exist(layout@),
        has_symbol(layout@.objects, object_index as int, symbol_index as int),
        is_position_map(layout@.objects[object_index as int], positions@),
    ensures
        r == own_address(layout@, object_index as int, symbol_index as int),
{
    broadcast use vstd::std_specs::hash::group_hash_axioms;

    let object = &layout.objects[object_index];
    assert(layout@.objects[object_index as int] == object@);
    let symbol = &object.symbols[symbol_index];
    assert(object@.symbols[symbol_index as int] == symbol@);
    let address = match symbol.section {
        SymbolSection::Section(id) => {
            assert(positions@.contains_key(id) <==> symbol_section(object@, id) is Some);
            match positions.get(&id) {
                None => return Err(
                    LinkError::MissingSymbolSection { object: object_index, section_id: id },
                ),
                Some(position) => {
                    let j = *position;
                    assert(positions@[id] < object@.sections.len());
                    assert(object@.sections[j as int] == object.sections@[j as int]@);
                    if object.sections[j].output_section.is_none() {
                        return Ok(None);
                    }
                    match input_section_address(layout, object_index, j) {
                        Err(e) => return Err(e),
                        Ok(base) => {
                            if base > u64::MAX - symbol.value {
                                return Err(LinkError::ArithmeticOverflow);
                            }
                            base + symbol.value
                        },
                    }
                },
            }
        },
        SymbolSection::Absolute => symbol.value,
        SymbolSection::Undefined | SymbolSection::Unknown | SymbolSection::Nowhere
        | SymbolSection::Common => 0,
    };
    if address != 0 {
        Ok(Some(address))
    } else {
        Ok(None)
    }
}

/// Finds the definitions of all external names and the addresses of all symbols that have one of
/// their own.
pub fn resolve_symbols(layout: &mut PeLayout) -> (r: Result<(), LinkError>)
    requires
        outputs_exist(old(layout)@),
        addresses_match(old(layout)@),
    ensures
        match r {
            Ok(()) => resolved(old(layout)@) == Ok::<LayoutView, LinkError>(final(layout)@),
            Err(e) => resolved(old(layout)@) == Err::<LayoutView, LinkError>(e)
                && resolving_stops(old(layout)@, final(layout)@, e),
        },
{
    let ghost before = layout@;
    let n = layout.objects.len();
    let mut positions: Vec<HashMap<usize, usize>> = Vec::new();
    let mut i: usize = 0;
    while i < n
        invariant
            i <= n == layout.objects@.len(),
            positions@.len() == i,
            before == layout@,
            forall|a: int|
                0 <= a < i ==> is_position_map(before.objects[a], #[trigger] positions@[a]@),
        decreases n - i,
    {
        let map = section_positions(&layout.objects[i]);
        assert(before.objects[i as int] == layout.objects@[i as int]@);
        positions.push(map);
        i += 1;
    }
    match collect_definitions(&layout.objects, &positions, &mut layout.global_definitions) {
        Ok(()) => {},
        Err(e) => {
            assert(layout@ =~= (LayoutView {
                global_definitions: layout@.global_definitions,
                ..before
            }));
            assert(resolving_stops(before, layout@, e));
            return Err(e);
        },
    }
    let ghost found = layout@.global_definitions;
    let ghost middle = layout@;
    assert(middle == (LayoutView { global_definitions: found, ..before }));
    let mut i: usize = 0;
    while i < n
        invariant
            i <= n == layout.objects@.len(),
            n == positions@.len(),
            layout@ == (LayoutView {
                global_definitions: found,
                symbol_addresses: layout@.symbol_addresses,
                ..before
            }),
            outputs_exist(before),
            addresses_match(before),
            layout@.symbol_addresses.len() == n,
            before == old(layout)@,
            definitions(before.objects, before.global_definitions, n as int, 0) == Ok::<
                Map<Seq<char>, (usize, usize)>,
                LinkError,
            >(found),
            forall|a: int|
                0 <= a < n ==> is_position_map(before.objects[a], #[trigger] positions@[a]@),
            forall|a: int|
                i <= a < n ==> (#[trigger] layout.symbol_addresses@[a])@
                    == before.symbol_addresses[a],
            forall|a: int|
                0 <= a < i ==> (#[trigger] layout.symbol_addresses@[a])@ == Seq::new(
                    before.objects[a].symbols.len(),
                    |b: int| resolved_address(before, a, b),
                ),
            own_address_error(before, i as int, 0) is None,
        decreases n - i,
    {
        let mut s: usize = 0;
        let m = layout.objects[i].symbols.len();
        assert(layout@.symbol_addresses[i as int] == layout.symbol_addresses@[i as int]@);
        while s < m
            invariant
                i < n == layout.objects@.len(),
                n == positions@.len(),
                layout@ == (LayoutView {
                    global_definitions: found,
                    symbol_addresses: layout@.symbol_addresses,
                    ..before
                }),
                outputs_exist(before),
                addresses_match(before),
                layout@.symbol_addresses.len() == n,
                before == old(layout)@,
                definitions(before.objects, before.global_definitions, n as int, 0) == Ok::<
                    Map<Seq<char>, (usize, usize)>,
                    LinkError,
                >(found),
                is_position_map(before.objects[i as int], positions@[i as int]@),
                forall|a: int|
                    i < a < n ==> (#[trigger] layout.symbol_addresses@[a])@
                        == before.symbol_addresses[a],
                forall|a: int|
                    0 <= a < i ==> (#[trigger] layout.symbol_addresses@[a])@ == Seq::new(
                        before.objects[a].symbols.len(),
                        |b: int| resolved_address(before, a, b),
                    ),
                s <= m == before.objects[i as int].symbols.len(),
                layout.symbol_addresses@[i as int]@.len() == m,
                forall|b: int|
                    s <= b < m ==> #[trigger] layout.symbol_addresses@[i as int]@[b]
                        == before.symbol_addresses[i as int][b],
                forall|b: int|
                    0 <= b < s ==> #[trigger] layout.symbol_addresses@[i as int]@[b]
                        == resolved_address(before, i as int, b),
                own_address_error(before, i as int, s as int) is None,
            decreases m - s,
        {
            assert(own_address(layout@, i as int, s as int) == own_address(
                before,
                i as int,
                s as int,
            ));
            match compute_own_address(layout, i, s, &positions[i]) {
                Err(e) => {
                    proof {
                        assert(own_address_error(before, i as int, s + 1) == Some(e));
                        lemma_own_address_error(before, i as int, s + 1);
                        assert(address_fails_at(before, i as int, s as int, e));
                        assert forall|a: int| 0 <= a < n implies #[trigger]
                            layout@.symbol_addresses[a] =~= addresses_before(
                            before,
                            i as int,
                            s as int,
                        )[a] by {
                            assert(layout@.symbol_addresses[a]
                                == layout.symbol_addresses@[a]@);
                        }
                        assert(layout@.symbol_addresses =~= addresses_before(
                            before,
                            i as int,
                            s as int,
                        ));
                    }
                    return Err(e);
                },
                Ok(Some(address)) => {
                    layout.symbol_addresses[i][s] = Some(address);
                    assert(layout@ =~= (LayoutView {
                        global_definitions: found,
                        symbol_addresses: layout@.symbol_addresses,
                        ..before
                    }));
                },
                Ok(None) => {},
            }
            s += 1;
        }
        assert(layout.symbol_addresses@[i as int]@ =~= Seq::new(
            before.objects[i as int].symbols.len(),
            |b: int| resolved_address(before, i as int, b),
        ));
        i += 1;
    }
    assert(layout@ =~= resolved(before)->Ok_0);
    Ok(())
}

/// The address that symbol `s` of object `i` stands for: its own, or that of the definition of its
/// name.
pub open spec fn address_of(layout: LayoutView, i: int, s: int) -> Result<u64, LinkError> {
    if s >= layout.objects[i].symbols.len() {
        Err(LinkError::MissingSymbol { object: i as usize, symbol: s as usize })
    } else {
        let symbol = layout.objects[i].symbols[s];
        match layout.symbol_addresses[i][s] {
            Some(address) => Ok(address),
            None => if symbol.is_undefined && symbol.name is Some
                && layout.global_definitions.contains_key(symbol.name->0) {
                let (def_object, def_symbol) = layout.global_definitions[symbol.name->0];
                match layout.symbol_addresses[def_object as int][def_symbol as int] {
                    Some(address) => Ok(address),
                    None => Err(
                        LinkError::UnresolvedSymbol { object: def_object, symbol: def_symbol },
                    ),
                }
            } else {
                Err(LinkError::UnresolvedSymbol { object: i as usize, symbol: s as usize })
            },
        }
    }
}

/// Returns the address that a symbol stands for.
pub fn symbol_address(
    layout: &PeLayout,
    object_index: usize,
    symbol_index: usize,
) -> (r: Result<u64, LinkError>)
    requires
        addresses_match(layout@),
        definitions_end(layout@),
        object_index < layout@.objects.len(),
    ensures
        r == address_of(layout@, object_index as int, symbol_index as int),
{
    let object = &layout.objects[object_index];
    assert(layout@.objects[object_index as int] == object@);
    assert(layout@.symbol_addresses[object_index as int]
        == layout.symbol_addresses@[object_index as int]@);
    if symbol_index >= object.symbols.len() {
        return Err(LinkError::MissingSymbol { object: object_index, symbol: symbol_index });
    }
    if let Some(address) = layout.symbol_addresses[object_index][symbol_index] {
        return Ok(address);
    }
    let symbol = &object.symbols[symbol_index];
    assert(object@.symbols[symbol_index as int] == symbol@);
    if symbol.is_undefined {
        if let Some(name) = &symbol.name {
            if let Some(definition) = layout.global_definitions.get(name.as_str()) {
                let (def_object, def_symbol) = *definition;
                assert(layout@.symbol_addresses[def_object as int]
                    == layout.symbol_addresses@[def_object as int]@);
                return match layout.symbol_addresses[def_object][def_symbol] {
                    Some(address) => Ok(address),
                    None => Err(
                        LinkError::UnresolvedSymbol { object: def_object, symbol: def_symbol },
                    ),
                };
            }
        }
    }
    Err(LinkError::UnresolvedSymbol { object: object_index, symbol: symbol_index })
}

/// The number, counted from one, of the output section that `id` means in object `i`.
pub open spec fn output_number(layout: LayoutView, i: int, id: usize) -> Result<u16, LinkError> {
    match relocation_section(layout.objects[i], id) {
        None => Err(LinkError::MissingRelocationSection { object: i as usize, section_id: id }),
        Some(j) => match layout.objects[i].sections[j as int].output_section {
            None => Err(LinkError::DiscardedSection),
            Some(k) => if k + 1 > usize::MAX {
                Err(LinkError::ArithmeticOverflow)
            } else if k + 1 > u16::MAX {
                Err(LinkError::TooManySections)
            } else {
                Ok((k + 1) as u16)
            },
        },
    }
}

/// Returns the number of the output section that an input section is part of.
pub fn section_symbol_index(
    layout: &PeLayout,
    object_index: usize,
    section_id: usize,
) -> (r: Result<u16, LinkError>)
    requires
        object_index < layout@.objects.len(),
    ensures
        r == output_number(layout@, object_index as int, section_id),
{
    let object = &layout.objects[object_index];
    assert(layout@.objects[object_index as int] == object@);
    match find_section(object, section_id) {
        None => Err(LinkError::MissingRelocationSection { object: object_index, section_id }),
        Some(j) => {
            assert(object@.sections[j as int] == object.sections@[j as int]@);
            match object.sections[j].output_section {
                None => Err(LinkError::DiscardedSection),
                Some(k) => {
                    if k == usize::MAX {
                        Err(LinkError::ArithmeticOverflow)
                    } else if k + 1 > u16::MAX as usize {
                        Err(LinkError::TooManySections)
                    } else {
                        Ok((k + 1) as u16)
                    }
                },
            }
        },
    }
}

/// The address that a relocation in object `i` refers to.
pub open spec fn target_address(
    layout: LayoutView,
    i: int,
    target: InputRelocationTarget,
) -> Result<u64, LinkError> {
    match target {
        InputRelocationTarget::Symbol(s) => address_of(layout, i, s as int),
        InputRelocationTarget::Section(id) => match relocation_section(layout.objects[i], id) {
            None => Err(LinkError::MissingRelocationSection { object: i as usize, section_id: id }),
            Some(j) => section_address(layout, i, j as int),
        },
        InputRelocationTarget::Absolute => Ok(0),
    }
}

/// Returns the address that a relocation refers to.
pub fn relocation_target_address(
    layout: &PeLayout,
    object_index: usize,
    target: &InputRelocationTarget,
) -> (r: Result<u64, LinkError>)
    requires
        is_consistent(layout@),
        object_index < layout@.objects.len(),
    ensures
        r == target_address(layout@, object_index as int, *target),
{
    match *target {
        InputRelocationTarget::Symbol(symbol_index) => symbol_address(
            layout,
            object_index,
            symbol_index,
        ),
        InputRelocationTarget::Section(section_id) => {
            let object = &layout.objects[object_index];
            assert(layout@.objects[object_index as int] == object@);
            match find_section(object, section_id) {
                None => Err(
                    LinkError::MissingRelocationSection { object: object_index, section_id },
                ),
                Some(j) => input_section_address(layout, object_index, j),
            }
        },
        InputRelocationTarget::Absolute => Ok(0),
    }
}

// ---- entry point ----

/// The names that are tried for the entry point.
pub open spec fn entry_candidates(entry: Option<Seq<char>>, is_dll: bool) -> Seq<Seq<char>> {
    match entry {
        Some(name) => seq![name],
        None => if is_dll {
            seq!["_DllMainCRTStartup"@]
        } else {
            seq!["mainCRTStartup"@, "_mainCRTStartup"@, "WinMainCRTStartup"@]
        },
    }
}

/// The address, relative to the image base, of the first of the names from the `k`-th on that is
/// defined.
pub open spec fn entry_from(layout: LayoutView, names: Seq<Seq<char>>, k: int) -> Result<
    u32,
    LinkError,
>
    decreases names.len() - k,
{
    if k < 0 || k >= names.len() {
        Err(LinkError::EntryPointNotFound)
    } else if !layout.global_definitions.contains_key(names[k]) {
        entry_from(layout, names, k + 1)
    } else {
        let (i, s) = layout.global_definitions[names[k]];
        match address_of(layout, i as int, s as int) {
            Err(e) => Err(e),
            Ok(address) => if address < layout.image_base || address - layout.image_base
                > u32::MAX {
                Err(LinkError::EntryPointOutsideImage { candidate: k as usize })
            } else {
                Ok((address - layout.image_base) as u32)
            },
        }
    }
}

/// The address of the entry point, relative to the image base.
pub open spec fn entry_point(layout: LayoutView, entry: Option<Seq<char>>, is_dll: bool) -> Result<
    u32,
    LinkError,
> {
    entry_from(layout, entry_candidates(entry, is_dll), 0)
}

/// The texts of a list of strings.
pub open spec fn texts(names: Seq<&str>) -> Seq<Seq<char>> {
    Seq::new(names.len(), |k: int| names[k]@)
}

/// Returns the names that are tried for the entry point.
pub fn entry_point_names(args: &PeArgs) -> (names: Vec<&str>)
    ensures
        texts(names@) == entry_candidates(input::text_of(args.entry), args.is_dll),
{
    let mut names: Vec<&str> = Vec::new();
    match &args.entry {
        Some(entry) => {
            names.push(entry.as_str());
        },
        None => {
            if args.is_dll {
                names.push("_DllMainCRTStartup");
            } else {
                names.push("mainCRTStartup");
                names.push("_mainCRTStartup");
                names.push("WinMainCRTStartup");
            }
        },
    }
    assert(texts(names@) =~= entry_candidates(input::text_of(args.entry), args.is_dll));
    names
}

/// Returns the address of the entry point, relative to the image base.
pub fn find_entry_point_rva(args: &PeArgs, layout: &PeLayout) -> (r: Result<u32, LinkError>)
    requires
        addresses_match(layout@),
        definitions_end(layout@),
    ensures
        r == entry_point(layout@, input::text_of(args.entry), args.is_dll),
{
    let names = entry_point_names(args);
    let ghost wanted = texts(names@);
    let mut k: usize = 0;
    while k < names.len()
        invariant
            k <= names@.len(),
            wanted == texts(names@),
            wanted == entry_candidates(input::text_of(args.entry), args.is_dll),
            addresses_match(layout@),
            definitions_end(layout@),
            entry_from(layout@, wanted, 0) == entry_from(layout@, wanted, k as int),
        decreases names@.len() - k,
    {
        assert(wanted[k as int] == names@[k as int]@);
        if let Some(definition) = layout.global_definitions.get(names[k]) {
            let (object_index, symbol_index) = *definition;
            return match symbol_address(layout, object_index, symbol_index) {
                Err(e) => Err(e),
                Ok(address) => {
                    if address < layout.image_base || address - layout.image_base
                        > u32::MAX as u64 {
                        Err(LinkError::EntryPointOutsideImage { candidate: k })
                    } else {
                        Ok((address - layout.image_base) as u32)
                    }
                },
            };
        }
        k += 1;
    }
    Err(LinkError::EntryPointNotFound)
}

} // verus!
