//! What holds of every set of inputs that is loaded.
use crate::args::Input;
use crate::coff;
use crate::error::LoadErrorView;
use crate::file_name;
use crate::input;
use crate::input::ObjectView;
use crate::pe_archive;
use crate::pe_archive::{ArchiveView, LoadState};
use crate::pe_grouping;
use crate::pe_inputs;
use crate::pe_inputs::{FoundInput, PathCandidate};
use crate::pe_object;
use crate::pe_symbols;
use vstd::prelude::*;

verus! {

// ---- objects ----

/// A loaded symbol stands at its index in the symbol table, without its name if that is empty.
pub proof fn symbols_stand_at_their_index(data: Seq<u8>, indices: Seq<usize>, n: int, k: int)
    requires
        0 <= k < n <= indices.len(),
        pe_object::loaded_symbols(data, indices, n) is Ok,
        forall|l: int| k < l < n ==> #[trigger] indices[l] != indices[k],
    ensures
        indices[k] < pe_object::loaded_symbols(data, indices, n)->Ok_0.len(),
        coff::coff_symbol(data, indices[k]) is Some,
        pe_object::loaded_symbols(data, indices, n)->Ok_0[indices[k] as int]
            == pe_object::without_empty_name(coff::coff_symbol(data, indices[k])->0),
    decreases n,
{
    if k < n - 1 {
        symbols_stand_at_their_index(data, indices, n - 1, k);
        let _ = indices[n - 1];
    }
}

/// A place in the symbol table that no symbol has for its index holds one that nothing is known
/// of.
pub proof fn other_symbols_are_unknown(data: Seq<u8>, indices: Seq<usize>, n: int, i: int)
    requires
        0 <= n <= indices.len(),
        pe_object::loaded_symbols(data, indices, n) is Ok,
        0 <= i < pe_object::loaded_symbols(data, indices, n)->Ok_0.len(),
        forall|l: int| 0 <= l < n ==> #[trigger] indices[l] != i,
    ensures
        pe_object::loaded_symbols(data, indices, n)->Ok_0[i] == input::unknown_symbol(),
    decreases n,
{
    if n > 0 {
        let before = pe_object::loaded_symbols(data, indices, n - 1)->Ok_0;
        let _ = indices[n - 1];
        if i < before.len() {
            other_symbols_are_unknown(data, indices, n - 1, i);
        }
    }
}

/// The sections of a loaded object come in the order of their indices in the file, and none has a
/// place in the output yet.
pub proof fn sections_come_in_order(data: Seq<u8>, indices: Seq<usize>, n: int, k: int)
    requires
        0 <= k < n <= indices.len(),
        pe_object::loaded_sections(data, indices, n) is Ok,
    ensures
        pe_object::loaded_sections(data, indices, n)->Ok_0.len() == n,
        pe_object::loaded_sections(data, indices, n)->Ok_0[k].index == indices[k],
        pe_object::loaded_sections(data, indices, n)->Ok_0[k].output_section is None,
    decreases n,
{
    lemma_sections_len(data, indices, n - 1);
    if k < n - 1 {
        sections_come_in_order(data, indices, n - 1, k);
    }
}

/// There are as many sections as indices.
proof fn lemma_sections_len(data: Seq<u8>, indices: Seq<usize>, n: int)
    requires
        0 <= n,
        pe_object::loaded_sections(data, indices, n) is Ok,
    ensures
        pe_object::loaded_sections(data, indices, n)->Ok_0.len() == n,
    decreases n,
{
    if n > 0 {
        lemma_sections_len(data, indices, n - 1);
    }
}

// ---- archives ----

/// A name leads to the member of the first archive symbol with that name.
pub proof fn first_archive_symbol_counts(symbols: Seq<(Seq<u8>, u64)>, n: int, k: int)
    requires
        0 <= k < n <= symbols.len(),
        forall|l: int|
            0 <= l < k ==> coff::lossy_text((#[trigger] symbols[l]).0) != coff::lossy_text(
                symbols[k].0,
            ),
    ensures
        pe_archive::members_among(symbols, n).contains_key(coff::lossy_text(symbols[k].0)),
        pe_archive::members_among(symbols, n)[coff::lossy_text(symbols[k].0)] == symbols[k].1,
    decreases n,
{
    if k < n - 1 {
        first_archive_symbol_counts(symbols, n - 1, k);
    } else {
        lemma_members_come_from_symbols(symbols, k, coff::lossy_text(symbols[k].0));
    }
}

/// A name that leads to a member is the name of a symbol.
proof fn lemma_members_come_from_symbols(symbols: Seq<(Seq<u8>, u64)>, n: int, name: Seq<char>)
    requires
        0 <= n <= symbols.len(),
        forall|l: int| 0 <= l < n ==> coff::lossy_text((#[trigger] symbols[l]).0) != name,
    ensures
        !pe_archive::members_among(symbols, n).contains_key(name),
    decreases n,
{
    if n > 0 {
        lemma_members_come_from_symbols(symbols, n - 1, name);
        let _ = symbols[n - 1];
    }
}

/// Whether symbol `s` of object `i` needs a name from elsewhere.
pub open spec fn imports_at(objects: Seq<ObjectView>, i: int, s: int, name: Seq<char>) -> bool {
    &&& pe_symbols::has_symbol(objects, i, s)
    &&& objects[i].symbols[s].is_undefined
    &&& !objects[i].symbols[s].is_local
    &&& objects[i].symbols[s].name == Some(name)
}

/// Where the needed names come from.
proof fn lemma_needed_names(
    objects: Seq<ObjectView>,
    definitions: Set<Seq<char>>,
    i: int,
    s: int,
)
    requires
        0 <= i <= objects.len(),
        i < objects.len() ==> 0 <= s <= objects[i].symbols.len(),
        i == objects.len() ==> s == 0,
    ensures
        pe_archive::needed_names(objects, definitions, i, s).no_duplicates(),
        forall|name: Seq<char>| #[trigger]
            pe_archive::needed_names(objects, definitions, i, s).contains(name)
                ==> !definitions.contains(name) && exists|a: int, b: int|
                #[trigger] imports_at(objects, a, b, name),
        forall|a: int, b: int, name: Seq<char>|
            #[trigger] imports_at(objects, a, b, name) && pe_grouping::comes_before(a, b, i, s)
                && !definitions.contains(name) ==> pe_archive::needed_names(
                objects,
                definitions,
                i,
                s,
            ).contains(name),
    decreases i, s,
{
    let after = pe_archive::needed_names(objects, definitions, i, s);
    if s > 0 {
        lemma_needed_names(objects, definitions, i, s - 1);
        let before = pe_archive::needed_names(objects, definitions, i, s - 1);
        let symbol = objects[i].symbols[s - 1];
        if symbol.is_undefined && !symbol.is_local && symbol.name is Some && !definitions.contains(
            symbol.name->0,
        ) && !before.contains(symbol.name->0) {
            let own = symbol.name->0;
            assert(after == before.push(own));
            assert(imports_at(objects, i, s - 1, own));
            assert(after[before.len() as int] == own);
            assert forall|name: Seq<char>| before.contains(name) implies #[trigger] after.contains(
                name,
            ) by {
                let k = before.index_of(name);
                assert(after[k] == name);
            }
            assert forall|name: Seq<char>| #[trigger] after.contains(name) implies name == own
                || before.contains(name) by {
                let k = after.index_of(name);
                if k < before.len() {
                    assert(before[k] == name);
                }
            }
        } else {
            assert(after == before);
        }
    } else if i > 0 {
        lemma_needed_names(objects, definitions, i - 1, objects[i - 1].symbols.len() as int);
    }
}

/// The unresolved names are those that some symbol needs from elsewhere and that no object
/// defines; each comes once.
pub proof fn unresolved_names_are_exact(objects: Seq<ObjectView>)
    ensures
        pe_archive::unresolved_names(objects).no_duplicates(),
        forall|name: Seq<char>| #[trigger]
            pe_archive::unresolved_names(objects).contains(name) <==> {
                &&& exists|i: int, s: int| #[trigger] imports_at(objects, i, s, name)
                &&& !exists|i: int, s: int| #[trigger]
                    pe_archive::exports_at(objects, i, s, name)
            },
{
    let definitions = pe_archive::defined_names(objects);
    lemma_needed_names(objects, definitions, objects.len() as int, 0);
    assert forall|name: Seq<char>|
        (exists|i: int, s: int| #[trigger] imports_at(objects, i, s, name)) && !(exists|
            i: int,
            s: int,
        | #[trigger]
            pe_archive::exports_at(objects, i, s, name)) implies #[trigger]
        pe_archive::unresolved_names(objects).contains(name) by {
        let (a, b) = choose|i: int, s: int| #[trigger] imports_at(objects, i, s, name);
        assert(imports_at(objects, a, b, name));
        assert(!definitions.contains(name));
    }
}

// ---- members ----

/// Loading keeps the objects that are there, in front of the members, and loads each member once:
/// as many members are marked as loaded as there are new objects.
pub proof fn members_are_loaded_once(
    archives: Seq<ArchiveView>,
    objects: Seq<ObjectView>,
    passes: nat,
)
    requires
        forall|a: int| 0 <= a < archives.len() ==> (#[trigger] archives[a]).wf(),
        pe_archive::after_passes(
            archives,
            pe_archive::start_state(objects, archives),
            passes,
        ) is Ok,
    ensures
        ({
            let end = pe_archive::after_passes(
                archives,
                pe_archive::start_state(objects, archives),
                passes,
            )->Ok_0;
            &&& objects.len() <= end.objects.len()
            &&& end.objects.take(objects.len() as int) == objects
            &&& end.objects.len() - objects.len() == loaded_count(
                end.loaded,
                archives.len() as int,
            )
        }),
{
    let start = pe_archive::start_state(objects, archives);
    lemma_passes(archives, start, passes);
    let end = pe_archive::after_passes(archives, start, passes)->Ok_0;
    let n = archives.len() as int;
    lemma_missing_is_rest(archives, start.loaded, n);
    lemma_missing_is_rest(archives, end.loaded, n);
    lemma_nothing_loaded(archives, objects, n);
}

/// The number of members of the first `n` archives that are marked as loaded.
pub open spec fn loaded_count(loaded: Seq<Set<u64>>, n: int) -> int
    decreases n,
{
    if n <= 0 {
        0
    } else {
        loaded_count(loaded, n - 1) + loaded[n - 1].len()
    }
}

/// The number of members of the first `n` archives.
spec fn member_count(archives: Seq<ArchiveView>, n: int) -> int
    decreases n,
{
    if n <= 0 {
        0
    } else {
        member_count(archives, n - 1) + archives[n - 1].members.values().len()
    }
}

/// What is missing is what is not loaded.
proof fn lemma_missing_is_rest(archives: Seq<ArchiveView>, loaded: Seq<Set<u64>>, n: int)
    ensures
        pe_archive::missing(archives, loaded, n) == member_count(archives, n) - loaded_count(
            loaded,
            n,
        ),
    decreases n,
{
    if n > 0 {
        lemma_missing_is_rest(archives, loaded, n - 1);
    }
}

/// At the start nothing is loaded.
proof fn lemma_nothing_loaded(archives: Seq<ArchiveView>, objects: Seq<ObjectView>, n: int)
    requires
        0 <= n <= archives.len(),
    ensures
        loaded_count(pe_archive::start_state(objects, archives).loaded, n) == 0,
    decreases n,
{
    if n > 0 {
        lemma_nothing_loaded(archives, objects, n - 1);
    }
}

/// Passes keep a sound state and what is in front.
proof fn lemma_passes(archives: Seq<ArchiveView>, start: LoadState, passes: nat)
    requires
        pe_archive::is_sound_state(archives, start.loaded),
        pe_archive::after_passes(archives, start, passes) is Ok,
    ensures
        ({
            let end = pe_archive::after_passes(archives, start, passes)->Ok_0;
            let n = archives.len() as int;
            &&& pe_archive::is_sound_state(archives, end.loaded)
            &&& end.objects.len() + pe_archive::missing(archives, end.loaded, n)
                == start.objects.len() + pe_archive::missing(archives, start.loaded, n)
            &&& start.objects.len() <= end.objects.len()
            &&& end.objects.take(start.objects.len() as int) == start.objects
        }),
    decreases passes,
{
    if passes > 0 {
        lemma_passes(archives, start, (passes - 1) as nat);
        let before = pe_archive::after_passes(archives, start, (passes - 1) as nat)->Ok_0;
        let names = pe_archive::unresolved_names(before.objects);
        pe_archive::lemma_with_members(archives, before, names, names.len() as int);
        let end = pe_archive::after_passes(archives, start, passes)->Ok_0;
        let count = start.objects.len() as int;
        assert(end.objects.take(count) =~= end.objects.take(before.objects.len() as int).take(
            count,
        ));
    } else {
        assert(start.objects.take(start.objects.len() as int) =~= start.objects);
    }
}

/// Once loading has settled, every member that could supply an unresolved name has been loaded.
pub proof fn settled_states_are_closed(
    archives: Seq<ArchiveView>,
    state: LoadState,
    name: Seq<char>,
    a: int,
)
    requires
        pe_archive::is_sound_state(archives, state.loaded),
        pe_archive::is_settled(archives, state),
        pe_archive::unresolved_names(state.objects).contains(name),
        0 <= a < archives.len(),
        archives[a].members.contains_key(name),
    ensures
        state.loaded[a].contains(archives[a].members[name]),
{
    let names = pe_archive::unresolved_names(state.objects);
    let k = names.index_of(name);
    lemma_settled_prefix(archives, state, names, k + 1, names.len() as int);
    lemma_settled_prefix(archives, state, names, k, names.len() as int);
    pe_archive::lemma_with_member(archives, state, name);
    pe_archive::lemma_supplier(archives, state.loaded, name, 0);
    if pe_archive::supplier(archives, state.loaded, name, 0) is Some {
        assert(pe_archive::with_member(archives, state, name)->Ok_0.objects.len()
            > state.objects.len());
    }
    let _ = archives[a];
}

/// If all names together load nothing, no first part of them loads anything.
proof fn lemma_settled_prefix(
    archives: Seq<ArchiveView>,
    state: LoadState,
    names: Seq<Seq<char>>,
    n: int,
    m: int,
)
    requires
        pe_archive::is_sound_state(archives, state.loaded),
        0 <= n <= m <= names.len(),
        pe_archive::with_members(archives, state, names, m) == Ok::<LoadState, LoadErrorView>(
            state,
        ),
    ensures
        pe_archive::with_members(archives, state, names, n) == Ok::<LoadState, LoadErrorView>(
            state,
        ),
    decreases m,
{
    if n < m {
        let before = pe_archive::with_members(archives, state, names, m - 1)->Ok_0;
        pe_archive::lemma_with_members(archives, state, names, m - 1);
        pe_archive::lemma_with_member(archives, before, names[m - 1]);
        lemma_settled_prefix(archives, state, names, n, m - 1);
    }
}

/// Whether the member at an offset of an archive is one of the objects.
pub open spec fn is_among(archive: ArchiveView, offset: u64, objects: Seq<ObjectView>) -> bool {
    exists|i: int|
        0 <= i < objects.len() && pe_archive::member_object(archive, offset) == Ok::<
            ObjectView,
            LoadErrorView,
        >(#[trigger] objects[i])
}

/// Whether every member that is marked as loaded is one of the objects.
spec fn marks_hold(archives: Seq<ArchiveView>, state: LoadState) -> bool {
    &&& state.loaded.len() == archives.len()
    &&& forall|a: int, offset: u64|
        0 <= a < archives.len() && #[trigger] state.loaded[a].contains(offset) ==> is_among(
            archives[a],
            offset,
            state.objects,
        )
}

/// Loading marks no member that it does not add.
proof fn lemma_marks_hold(
    archives: Seq<ArchiveView>,
    state: LoadState,
    names: Seq<Seq<char>>,
    n: int,
)
    requires
        0 <= n <= names.len(),
        marks_hold(archives, state),
        pe_archive::with_members(archives, state, names, n) is Ok,
    ensures
        marks_hold(archives, pe_archive::with_members(archives, state, names, n)->Ok_0),
    decreases n,
{
    if n > 0 {
        lemma_marks_hold(archives, state, names, n - 1);
        let before = pe_archive::with_members(archives, state, names, n - 1)->Ok_0;
        let after = pe_archive::with_members(archives, state, names, n)->Ok_0;
        let name = names[n - 1];
        pe_archive::lemma_supplier(archives, before.loaded, name, 0);
        assert forall|a: int, offset: u64|
            0 <= a < archives.len() && #[trigger] after.loaded[a].contains(offset) implies is_among(
            archives[a],
            offset,
            after.objects,
        ) by {
            if before.loaded[a].contains(offset) {
                let i = choose|i: int|
                    0 <= i < before.objects.len() && pe_archive::member_object(archives[a], offset)
                        == Ok::<ObjectView, LoadErrorView>(#[trigger] before.objects[i]);
                assert(after.objects[i] == before.objects[i]);
            } else {
                assert(after.objects.last() == after.objects[before.objects.len() as int]);
            }
        }
    }
}

/// Passes mark no member that they do not add.
proof fn lemma_passes_mark(archives: Seq<ArchiveView>, objects: Seq<ObjectView>, passes: nat)
    requires
        pe_archive::after_passes(
            archives,
            pe_archive::start_state(objects, archives),
            passes,
        ) is Ok,
    ensures
        marks_hold(
            archives,
            pe_archive::after_passes(
                archives,
                pe_archive::start_state(objects, archives),
                passes,
            )->Ok_0,
        ),
    decreases passes,
{
    let start = pe_archive::start_state(objects, archives);
    if passes > 0 {
        lemma_passes_mark(archives, objects, (passes - 1) as nat);
        let before = pe_archive::after_passes(archives, start, (passes - 1) as nat)->Ok_0;
        let names = pe_archive::unresolved_names(before.objects);
        lemma_marks_hold(archives, before, names, names.len() as int);
    }
}

/// Where a name is still unresolved in the end, every archive member that claims to define it is
/// already among the objects.
pub proof fn no_member_is_left_out(
    archives: Seq<ArchiveView>,
    objects: Seq<ObjectView>,
    all: Seq<ObjectView>,
    name: Seq<char>,
    a: int,
)
    requires
        forall|b: int| 0 <= b < archives.len() ==> (#[trigger] archives[b]).wf(),
        pe_archive::loading_ends(archives, objects, Ok(all)),
        pe_archive::unresolved_names(all).contains(name),
        0 <= a < archives.len(),
        archives[a].members.contains_key(name),
    ensures
        is_among(archives[a], archives[a].members[name], all),
{
    let outcome: Result<Seq<ObjectView>, LoadErrorView> = Ok(all);
    let n = choose|n: nat| #[trigger] pe_archive::ends_after(archives, objects, n, outcome);
    let start = pe_archive::start_state(objects, archives);
    let end = pe_archive::after_passes(archives, start, n)->Ok_0;
    lemma_passes(archives, start, n);
    lemma_passes_mark(archives, objects, n);
    settled_states_are_closed(archives, end, name, a);
}

/// Loading puts members behind the objects that are there, and changes none of these.
pub proof fn given_objects_stay_in_front(
    archives: Seq<ArchiveView>,
    objects: Seq<ObjectView>,
    all: Seq<ObjectView>,
)
    requires
        forall|b: int| 0 <= b < archives.len() ==> (#[trigger] archives[b]).wf(),
        pe_archive::loading_ends(archives, objects, Ok(all)),
    ensures
        objects.len() <= all.len(),
        all.take(objects.len() as int) == objects,
{
    let outcome: Result<Seq<ObjectView>, LoadErrorView> = Ok(all);
    let n = choose|n: nat| #[trigger] pe_archive::ends_after(archives, objects, n, outcome);
    members_are_loaded_once(archives, objects, n);
}

/// Loading has one outcome: it cannot end in two ways.
pub proof fn loading_has_one_outcome(
    archives: Seq<ArchiveView>,
    objects: Seq<ObjectView>,
    first: Result<Seq<ObjectView>, LoadErrorView>,
    second: Result<Seq<ObjectView>, LoadErrorView>,
)
    requires
        pe_archive::loading_ends(archives, objects, first),
        pe_archive::loading_ends(archives, objects, second),
    ensures
        first == second,
{
    let n = choose|n: nat| #[trigger] pe_archive::ends_after(archives, objects, n, first);
    let m = choose|m: nat| #[trigger] pe_archive::ends_after(archives, objects, m, second);
    let start = pe_archive::start_state(objects, archives);
    if n <= m {
        lemma_end_stays(archives, start, n, m);
    } else {
        lemma_end_stays(archives, start, m, n);
    }
}

/// A settled state and an error stay.
proof fn lemma_end_stays(
    archives: Seq<ArchiveView>,
    start: LoadState,
    first: nat,
    second: nat,
)
    requires
        first <= second,
        pe_archive::after_passes(archives, start, first) is Ok ==> pe_archive::is_settled(
            archives,
            pe_archive::after_passes(archives, start, first)->Ok_0,
        ),
    ensures
        pe_archive::after_passes(archives, start, second) == pe_archive::after_passes(
            archives,
            start,
            first,
        ),
    decreases second,
{
    if first < second {
        lemma_end_stays(archives, start, first, (second - 1) as nat);
    }
}

// ---- what is loaded ----

/// Whether the `i`-th object is the member of archive `a` for a name that symbol `s` of object `o`
/// in front of it needs from elsewhere.
pub open spec fn is_needed_by(
    archives: Seq<ArchiveView>,
    all: Seq<ObjectView>,
    i: int,
    a: int,
    name: Seq<char>,
    o: int,
    s: int,
) -> bool {
    &&& 0 <= a < archives.len()
    &&& archives[a].members.contains_key(name)
    &&& pe_archive::member_object(archives[a], archives[a].members[name]) == Ok::<
        ObjectView,
        LoadErrorView,
    >(all[i])
    &&& o < i
    &&& imports_at(all, o, s, name)
}

/// Whether the `i`-th object is a member that an object in front of it needs.
pub open spec fn is_needed(archives: Seq<ArchiveView>, all: Seq<ObjectView>, i: int) -> bool {
    exists|a: int, name: Seq<char>, o: int, s: int| #[trigger]
        is_needed_by(archives, all, i, a, name, o, s)
}

/// Whether all objects behind the first `count` are needed.
spec fn rest_is_needed(archives: Seq<ArchiveView>, all: Seq<ObjectView>, count: int) -> bool {
    forall|i: int| count <= i < all.len() ==> #[trigger] is_needed(archives, all, i)
}

/// Whether a symbol needs the name from elsewhere.
spec fn is_wanted(objects: Seq<ObjectView>, name: Seq<char>) -> bool {
    exists|o: int, s: int| #[trigger] imports_at(objects, o, s, name)
}

/// One more needed object.
proof fn lemma_needed_push(
    archives: Seq<ArchiveView>,
    all: Seq<ObjectView>,
    count: int,
    object: ObjectView,
    a: int,
    name: Seq<char>,
    o: int,
    s: int,
)
    requires
        0 <= count <= all.len(),
        rest_is_needed(archives, all, count),
        0 <= a < archives.len(),
        archives[a].members.contains_key(name),
        pe_archive::member_object(archives[a], archives[a].members[name]) == Ok::<
            ObjectView,
            LoadErrorView,
        >(object),
        imports_at(all, o, s, name),
    ensures
        rest_is_needed(archives, all.push(object), count),
{
    let more = all.push(object);
    assert forall|i: int| count <= i < more.len() implies #[trigger] is_needed(
        archives,
        more,
        i,
    ) by {
        if i < all.len() {
            assert(is_needed(archives, all, i));
            let (b, other, p, t) = choose|b: int, other: Seq<char>, p: int, t: int| #[trigger]
                is_needed_by(archives, all, i, b, other, p, t);
            assert(more[p] == all[p]);
            assert(is_needed_by(archives, more, i, b, other, p, t));
        } else {
            assert(more[o] == all[o]);
            assert(is_needed_by(archives, more, i, a, name, o, s));
        }
    }
}

/// Loading members for needed names adds needed objects.
proof fn lemma_members_are_needed(
    archives: Seq<ArchiveView>,
    state: LoadState,
    names: Seq<Seq<char>>,
    n: int,
    count: int,
)
    requires
        0 <= n <= names.len(),
        0 <= count <= state.objects.len(),
        rest_is_needed(archives, state.objects, count),
        forall|k: int|
            0 <= k < names.len() ==> is_wanted(state.objects, #[trigger] names[k]),
        pe_archive::with_members(archives, state, names, n) is Ok,
    ensures
        ({
            let after = pe_archive::with_members(archives, state, names, n)->Ok_0;
            &&& rest_is_needed(archives, after.objects, count)
            &&& state.objects.len() <= after.objects.len()
            &&& forall|k: int|
                0 <= k < state.objects.len() ==> #[trigger] after.objects[k] == state.objects[k]
        }),
    decreases n,
{
    if n > 0 {
        lemma_members_are_needed(archives, state, names, n - 1, count);
        let before = pe_archive::with_members(archives, state, names, n - 1)->Ok_0;
        let name = names[n - 1];
        pe_archive::lemma_supplier(archives, before.loaded, name, 0);
        match pe_archive::supplier(archives, before.loaded, name, 0) {
            None => {},
            Some(a) => {
                assert(is_wanted(state.objects, name));
                let (o, s) = choose|o: int, s: int| #[trigger]
                    imports_at(state.objects, o, s, name);
                assert(before.objects[o] == state.objects[o]);
                assert(imports_at(before.objects, o, s, name));
                let object = pe_archive::member_object(
                    archives[a],
                    archives[a].members[name],
                )->Ok_0;
                lemma_needed_push(archives, before.objects, count, object, a, name, o, s);
            },
        }
    }
}

/// The names that a pass goes through are needed.
proof fn lemma_names_are_needed(objects: Seq<ObjectView>)
    ensures
        forall|k: int|
            0 <= k < pe_archive::unresolved_names(objects).len() ==> is_wanted(
                objects,
                #[trigger] pe_archive::unresolved_names(objects)[k],
            ),
{
    unresolved_names_are_exact(objects);
    let names = pe_archive::unresolved_names(objects);
    assert forall|k: int| 0 <= k < names.len() implies is_wanted(
        objects,
        #[trigger] names[k],
    ) by {
        assert(names.contains(names[k]));
    }
}

/// Passes add needed objects.
proof fn lemma_passes_are_needed(
    archives: Seq<ArchiveView>,
    objects: Seq<ObjectView>,
    passes: nat,
)
    requires
        pe_archive::after_passes(
            archives,
            pe_archive::start_state(objects, archives),
            passes,
        ) is Ok,
    ensures
        ({
            let end = pe_archive::after_passes(
                archives,
                pe_archive::start_state(objects, archives),
                passes,
            )->Ok_0;
            objects.len() <= end.objects.len() && rest_is_needed(
                archives,
                end.objects,
                objects.len() as int,
            )
        }),
    decreases passes,
{
    if passes > 0 {
        lemma_passes_are_needed(archives, objects, (passes - 1) as nat);
        let before = pe_archive::after_passes(
            archives,
            pe_archive::start_state(objects, archives),
            (passes - 1) as nat,
        )->Ok_0;
        let names = pe_archive::unresolved_names(before.objects);
        lemma_names_are_needed(before.objects);
        lemma_members_are_needed(
            archives,
            before,
            names,
            names.len() as int,
            objects.len() as int,
        );
    }
}

/// Every object that loading adds is an archive member for a name that an object in front of it
/// needs from elsewhere, whether loading succeeds or stops with an error.
pub proof fn loaded_objects_are_needed(
    archives: Seq<ArchiveView>,
    objects: Seq<ObjectView>,
    all: Seq<ObjectView>,
    i: int,
)
    requires
        pe_archive::loading_ends(archives, objects, Ok(all)) || exists|e: LoadErrorView| #[trigger]
            pe_archive::loading_stops(archives, objects, all, e),
        objects.len() <= i < all.len(),
    ensures
        is_needed(archives, all, i),
{
    let start = pe_archive::start_state(objects, archives);
    let outcome: Result<Seq<ObjectView>, LoadErrorView> = Ok(all);
    if pe_archive::loading_ends(archives, objects, outcome) {
        let n = choose|n: nat| #[trigger] pe_archive::ends_after(archives, objects, n, outcome);
        lemma_passes_are_needed(archives, objects, n);
    } else {
        let e = choose|e: LoadErrorView| #[trigger]
            pe_archive::loading_stops(archives, objects, all, e);
        let (passes, n) = choose|passes: nat, n: int| #[trigger]
            pe_archive::stops_in_pass(archives, objects, passes, n, all, e);
        lemma_passes_are_needed(archives, objects, passes);
        let before = pe_archive::after_passes(archives, start, passes)->Ok_0;
        lemma_names_are_needed(before.objects);
        lemma_members_are_needed(
            archives,
            before,
            pe_archive::unresolved_names(before.objects),
            n,
            objects.len() as int,
        );
    }
    assert(is_needed(archives, all, i));
}

/// Names that no archive has load nothing.
proof fn lemma_nothing_to_load(
    archives: Seq<ArchiveView>,
    state: LoadState,
    names: Seq<Seq<char>>,
    n: int,
)
    requires
        0 <= n <= names.len(),
        forall|k: int, a: int|
            0 <= k < names.len() && 0 <= a < archives.len()
                ==> !(#[trigger] archives[a]).members.contains_key(#[trigger] names[k]),
    ensures
        pe_archive::with_members(archives, state, names, n) == Ok::<LoadState, LoadErrorView>(
            state,
        ),
    decreases n,
{
    if n > 0 {
        lemma_nothing_to_load(archives, state, names, n - 1);
        pe_archive::lemma_supplier(archives, state.loaded, names[n - 1], 0);
        let _ = names[n - 1];
    }
}

/// Where no archive has a name that the objects need, loading succeeds and leaves them as they are.
pub proof fn nothing_is_loaded_without_need(
    archives: Seq<ArchiveView>,
    objects: Seq<ObjectView>,
    outcome: Result<Seq<ObjectView>, LoadErrorView>,
)
    requires
        pe_archive::loading_ends(archives, objects, outcome),
        forall|name: Seq<char>, a: int|
            pe_archive::unresolved_names(objects).contains(name) && 0 <= a < archives.len()
                ==> !#[trigger] archives[a].members.contains_key(name),
    ensures
        outcome == Ok::<Seq<ObjectView>, LoadErrorView>(objects),
{
    let start = pe_archive::start_state(objects, archives);
    let names = pe_archive::unresolved_names(objects);
    assert forall|k: int, a: int|
        0 <= k < names.len() && 0 <= a < archives.len() implies !(
    #[trigger] archives[a]).members.contains_key(#[trigger] names[k]) by {
        assert(names.contains(names[k]));
    }
    lemma_nothing_to_load(archives, start, names, names.len() as int);
    assert(pe_archive::after_passes(archives, start, 0) == Ok::<LoadState, LoadErrorView>(start));
    assert(pe_archive::ends_after(
        archives,
        objects,
        0,
        Ok::<Seq<ObjectView>, LoadErrorView>(objects),
    ));
    loading_has_one_outcome(archives, objects, outcome, Ok(objects));
}

// ---- where inputs are looked for ----

/// A library is looked for as a file would be whose name is that of the library with the extension
/// `lib`: it is found there, or missing under that name.
pub proof fn libraries_are_found_as_files<F: Fn(PathCandidate, &str) -> bool>(
    library: Input,
    file: Input,
    num_dirs: usize,
    exists_at: F,
    r: Result<FoundInput, String>,
)
    requires
        library.spec is Lib,
        file.spec is Search,
        file_name::is_portable(library.spec->Lib_0@),
        file.spec->Search_0@ == file_name::extended(library.spec->Lib_0@, "lib"@),
        library.has_search_first == file.has_search_first,
    ensures
        pe_inputs::is_resolved(library, num_dirs, exists_at, r) <==> pe_inputs::is_resolved(
            file,
            num_dirs,
            exists_at,
            r,
        ),
{
    assert(forall|name: &str|
        #![trigger pe_inputs::is_searched_name(library.spec, name@)]
        #![trigger pe_inputs::is_searched_name(file.spec, name@)]
        pe_inputs::is_searched_name(library.spec, name@) == pe_inputs::is_searched_name(
            file.spec,
            name@,
        ));
    assert(pe_inputs::input_candidates(library, num_dirs) == pe_inputs::input_candidates(
        file,
        num_dirs,
    ));
}

} // verus!
