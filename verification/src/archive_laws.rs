//! What every archive, and every set of inputs, gives to the link.
use crate::coff;
use crate::coff::{ArchiveFailure, InputKind};
use crate::error::{LoadErrorKind, LoadErrorView};
use crate::input::ObjectView;
use crate::pe_archive;
use crate::pe_archive::{ArchiveView, InputArchive, LoadState};
use crate::pe_grouping;
use crate::pe_inputs;
use crate::pe_inputs::InputFile;
use crate::pe_object;
use vstd::prelude::*;

verus! {

// ---- names ----

/// Whether the symbol needs a name from elsewhere: it is undefined, not local, and has that name.
pub open spec fn needs(object: ObjectView, s: int, name: Seq<char>) -> bool {
    &&& 0 <= s < object.symbols.len()
    &&& object.symbols[s].is_undefined
    &&& !object.symbols[s].is_local
    &&& object.symbols[s].name == Some(name)
}

/// Whether the symbol gives a name to others: it is a definition, not local, and has that name.
pub open spec fn gives(object: ObjectView, s: int, name: Seq<char>) -> bool {
    &&& 0 <= s < object.symbols.len()
    &&& object.symbols[s].is_definition
    &&& !object.symbols[s].is_local
    &&& object.symbols[s].name == Some(name)
}

/// The names that objects define are those that their symbols give to others.
pub proof fn defined_names_are_given(objects: Seq<ObjectView>, name: Seq<char>)
    ensures
        pe_archive::defined_names(objects).contains(name) <==> exists|i: int, s: int|
            0 <= i < objects.len() && #[trigger] gives(objects[i], s, name),
{
    if pe_archive::defined_names(objects).contains(name) {
        let (i, s) = choose|i: int, s: int| #[trigger]
            pe_archive::exports_at(objects, i, s, name);
        assert(gives(objects[i], s, name));
    }
    if exists|i: int, s: int| 0 <= i < objects.len() && #[trigger] gives(objects[i], s, name) {
        let (i, s) = choose|i: int, s: int|
            0 <= i < objects.len() && #[trigger] gives(objects[i], s, name);
        assert(pe_archive::exports_at(objects, i, s, name));
    }
}

/// Whether the symbol is the first that needs the name: none in front of it does.
pub open spec fn needs_first(objects: Seq<ObjectView>, i: int, s: int, name: Seq<char>) -> bool {
    &&& 0 <= i < objects.len()
    &&& needs(objects[i], s, name)
    &&& forall|j: int, t: int|
        0 <= j < objects.len() && #[trigger] needs(objects[j], t, name) ==> i < j || i == j && s
            <= t
}

/// Whether there is a first symbol that needs the name.
pub open spec fn is_needed_somewhere(objects: Seq<ObjectView>, name: Seq<char>) -> bool {
    exists|i: int, s: int| #[trigger] needs_first(objects, i, s, name)
}

/// The names that are needed among the first symbols.
proof fn lemma_needed(
    objects: Seq<ObjectView>,
    definitions: Set<Seq<char>>,
    i: int,
    s: int,
)
    requires
        0 <= i <= objects.len(),
        i < objects.len() ==> 0 <= s <= objects[i].symbols.len(),
        i == objects.len() ==> s == 0,
    ensures
        ({
            let names = pe_archive::needed_names(objects, definitions, i, s);
            &&& forall|k: int|
                0 <= k < names.len() ==> !definitions.contains(#[trigger] names[k]) && exists|
                    a: int,
                    b: int,
                |
                    #[trigger] needs_first(objects, a, b, names[k]) && pe_grouping::comes_before(
                        a,
                        b,
                        i,
                        s,
                    )
            &&& forall|a: int, b: int, name: Seq<char>|
                0 <= a < objects.len() && #[trigger] needs(objects[a], b, name)
                    && pe_grouping::comes_before(a, b, i, s) && !definitions.contains(name)
                    ==> names.contains(name)
            &&& forall|k: int, l: int, a: int, b: int, c: int, d: int|
                #![trigger needs_first(objects, a, b, names[k]), needs_first(objects, c, d, names[l])]
                0 <= k < l < names.len() && needs_first(objects, a, b, names[k]) && needs_first(
                    objects,
                    c,
                    d,
                    names[l],
                ) ==> pe_grouping::comes_before(a, b, c, d)
        }),
    decreases i, s,
{
    if s > 0 {
        lemma_needed(objects, definitions, i, s - 1);
        let before = pe_archive::needed_names(objects, definitions, i, s - 1);
        let names = pe_archive::needed_names(objects, definitions, i, s);
        let symbol = objects[i].symbols[s - 1];
        if names != before {
            let own = symbol.name->0;
            assert(names == before.push(own));
            assert(needs(objects[i], s - 1, own));
            assert(needs_first(objects, i, s - 1, own)) by {
                assert forall|j: int, t: int|
                    0 <= j < objects.len() && #[trigger] needs(objects[j], t, own) implies i < j || i
                    == j && s - 1 <= t by {
                    if pe_grouping::comes_before(j, t, i, s - 1) {
                        assert(before.contains(own));
                    }
                }
            }
            assert(names[before.len() as int] == own);
            assert forall|k: int| 0 <= k < names.len() implies !definitions.contains(
                #[trigger] names[k],
            ) && exists|a: int, b: int|
                #[trigger] needs_first(objects, a, b, names[k]) && pe_grouping::comes_before(
                    a,
                    b,
                    i,
                    s,
                ) by {
                if k < before.len() {
                    assert(names[k] == before[k]);
                    let (a, b) = choose|a: int, b: int|
                        #[trigger] needs_first(objects, a, b, before[k])
                            && pe_grouping::comes_before(a, b, i, s - 1);
                    assert(needs_first(objects, a, b, names[k]));
                }
            }
            assert forall|k: int, l: int, a: int, b: int, c: int, d: int|
                #![trigger needs_first(objects, a, b, names[k]), needs_first(objects, c, d, names[l])]
                0 <= k < l < names.len() && needs_first(objects, a, b, names[k]) && needs_first(
                    objects,
                    c,
                    d,
                    names[l],
                ) implies pe_grouping::comes_before(a, b, c, d) by {
                assert(names[k] == before[k]);
                if l < before.len() {
                    assert(names[l] == before[l]);
                    assert(needs_first(objects, a, b, before[k]));
                    assert(needs_first(objects, c, d, before[l]));
                } else {
                    let (x, y) = choose|x: int, y: int|
                        #[trigger] needs_first(objects, x, y, before[k])
                            && pe_grouping::comes_before(x, y, i, s - 1);
                    assert(needs(objects[x], y, names[k]));
                    assert(needs(objects[i], s - 1, own));
                    assert(needs(objects[a], b, names[k]));
                    assert(needs(objects[c], d, own));
                }
            }
        } else {
            assert forall|k: int| 0 <= k < names.len() implies !definitions.contains(
                #[trigger] names[k],
            ) && exists|a: int, b: int|
                #[trigger] needs_first(objects, a, b, names[k]) && pe_grouping::comes_before(
                    a,
                    b,
                    i,
                    s,
                ) by {
                let (a, b) = choose|a: int, b: int|
                    #[trigger] needs_first(objects, a, b, before[k]) && pe_grouping::comes_before(
                        a,
                        b,
                        i,
                        s - 1,
                    );
                assert(needs_first(objects, a, b, names[k]));
            }
        }
        assert forall|a: int, b: int, name: Seq<char>|
            0 <= a < objects.len() && #[trigger] needs(objects[a], b, name)
                && pe_grouping::comes_before(a, b, i, s) && !definitions.contains(name) implies
            names.contains(name) by {
            if a == i && b == s - 1 {
                if !before.contains(name) {
                    assert(names == before.push(name));
                    assert(names[before.len() as int] == name);
                }
            }
            if before.contains(name) {
                let k = before.index_of(name);
                assert(names[k] == name);
            }
        }
    } else if i > 0 {
        let end = objects[i - 1].symbols.len() as int;
        lemma_needed(objects, definitions, i - 1, end);
        let names = pe_archive::needed_names(objects, definitions, i, s);
        let before = pe_archive::needed_names(objects, definitions, i - 1, end);
        assert(names == before);
        assert forall|k: int| 0 <= k < names.len() implies !definitions.contains(
            #[trigger] names[k],
        ) && exists|a: int, b: int|
            #[trigger] needs_first(objects, a, b, names[k]) && pe_grouping::comes_before(a, b, i, s) by {
            assert(!definitions.contains(before[k]));
            let (a, b) = choose|a: int, b: int|
                #[trigger] needs_first(objects, a, b, before[k]) && pe_grouping::comes_before(
                    a,
                    b,
                    i - 1,
                    end,
                );
            assert(needs_first(objects, a, b, names[k]));
            assert(pe_grouping::comes_before(a, b, i, s));
        }
    }
}

/// The names that are looked for are those that a symbol needs from elsewhere and that do not count
/// as defined, each once, in the order in which they are needed for the first time.
pub proof fn needed_names_come_in_order(
    objects: Seq<ObjectView>,
    definitions: Set<Seq<char>>,
    name: Seq<char>,
)
    ensures
        ({
            let names = pe_archive::needed_names(objects, definitions, objects.len() as int, 0);
            &&& names.contains(name) <==> !definitions.contains(name) && exists|i: int, s: int|
                0 <= i < objects.len() && #[trigger] needs(objects[i], s, name)
            &&& forall|k: int, l: int, a: int, b: int, c: int, d: int|
                #![trigger needs_first(objects, a, b, names[k]), needs_first(objects, c, d, names[l])]
                0 <= k < l < names.len() && needs_first(objects, a, b, names[k]) && needs_first(
                    objects,
                    c,
                    d,
                    names[l],
                ) ==> a < c || a == c && b < d
            &&& forall|k: int|
                0 <= k < names.len() ==> is_needed_somewhere(objects, #[trigger] names[k])
        }),
{
    let names = pe_archive::needed_names(objects, definitions, objects.len() as int, 0);
    lemma_needed(objects, definitions, objects.len() as int, 0);
    assert forall|k: int| 0 <= k < names.len() implies is_needed_somewhere(
        objects,
        #[trigger] names[k],
    ) by {
        assert(!definitions.contains(names[k]));
        let (i, s) = choose|i: int, s: int|
            #[trigger] needs_first(objects, i, s, names[k]) && pe_grouping::comes_before(
                i,
                s,
                objects.len() as int,
                0,
            );
        assert(needs_first(objects, i, s, names[k]));
    }
    assert forall|k: int, l: int, a: int, b: int, c: int, d: int|
        #![trigger needs_first(objects, a, b, names[k]), needs_first(objects, c, d, names[l])]
        0 <= k < l < names.len() && needs_first(objects, a, b, names[k]) && needs_first(
            objects,
            c,
            d,
            names[l],
        ) implies a < c || a == c && b < d by {
        assert(pe_grouping::comes_before(a, b, c, d));
    }
    if exists|i: int, s: int| 0 <= i < objects.len() && #[trigger] needs(objects[i], s, name) {
        let (i, s) = choose|i: int, s: int|
            0 <= i < objects.len() && #[trigger] needs(objects[i], s, name);
        assert(pe_grouping::comes_before(i, s, objects.len() as int, 0));
    }
    if names.contains(name) {
        let k = names.index_of(name);
        assert(names[k] == name);
        let (a, b) = choose|a: int, b: int|
            #[trigger] needs_first(objects, a, b, names[k]) && pe_grouping::comes_before(
                a,
                b,
                objects.len() as int,
                0,
            );
        assert(needs(objects[a], b, name));
        assert(!definitions.contains(names[k]));
    }
}

/// A name is unresolved exactly if a symbol needs it from elsewhere and no symbol gives it.
pub proof fn unresolved_names_are_needed_and_not_given(objects: Seq<ObjectView>, name: Seq<char>)
    ensures
        pe_archive::unresolved_names(objects).contains(name) <==> {
            &&& exists|i: int, s: int|
                0 <= i < objects.len() && #[trigger] needs(objects[i], s, name)
            &&& !exists|i: int, s: int|
                0 <= i < objects.len() && #[trigger] gives(objects[i], s, name)
        },
        pe_archive::unresolved_names(objects) == pe_archive::needed_names(
            objects,
            pe_archive::defined_names(objects),
            objects.len() as int,
            0,
        ),
{
    needed_names_come_in_order(objects, pe_archive::defined_names(objects), name);
    defined_names_are_given(objects, name);
}

// ---- archives ----

/// The model of an archive holds all that it holds.
pub proof fn archive_models_hold_everything(archive: InputArchive)
    ensures
        archive@.path == archive.path@,
        archive@.data == archive.data@,
        archive@.members == archive.members_by_symbol@,
{
}

/// The names of an archive are those of its symbols, and each leads to the member of the first
/// symbol with that name.
pub proof fn archive_names_are_those_of_its_symbols(
    symbols: Seq<(Seq<u8>, u64)>,
    n: int,
    name: Seq<char>,
)
    requires
        0 <= n <= symbols.len(),
    ensures
        pe_archive::members_among(symbols, n).contains_key(name) <==> exists|k: int|
            0 <= k < n && coff::lossy_text((#[trigger] symbols[k]).0) == name,
        forall|k: int|
            {
                &&& 0 <= k < n
                &&& coff::lossy_text((#[trigger] symbols[k]).0) == name
                &&& forall|l: int| 0 <= l < k ==> coff::lossy_text((#[trigger] symbols[l]).0) != name
            } ==> pe_archive::members_among(symbols, n)[name] == symbols[k].1,
    decreases n,
{
    if n > 0 {
        archive_names_are_those_of_its_symbols(symbols, n - 1, name);
        let before = pe_archive::members_among(symbols, n - 1);
        assert forall|k: int|
            {
                &&& 0 <= k < n
                &&& coff::lossy_text((#[trigger] symbols[k]).0) == name
                &&& forall|l: int| 0 <= l < k ==> coff::lossy_text((#[trigger] symbols[l]).0) != name
            } implies pe_archive::members_among(symbols, n)[name] == symbols[k].1 by {
            if k < n - 1 {
                assert(before.contains_key(name));
            } else if before.contains_key(name) {
                let l = choose|l: int|
                    0 <= l < n - 1 && coff::lossy_text((#[trigger] symbols[l]).0) == name;
                assert(coff::lossy_text(symbols[l].0) != name);
            }
        }
    }
}

/// A file can be read as an archive exactly if its symbols can be; one without a symbol table has
/// no names. The error names the file and says what cannot be read.
pub proof fn archives_hold_what_their_file_holds(path: Seq<char>, data: Seq<u8>)
    ensures
        match (pe_archive::parsed_archive(path, data), coff::archive_symbols_of(data)) {
            (Ok(archive), Ok(symbols)) => {
                &&& archive.path == path
                &&& archive.data == data
                &&& symbols is None ==> forall|name: Seq<char>|
                    !#[trigger] archive.members.contains_key(name)
                &&& symbols matches Some(list) ==> archive.members == pe_archive::members_among(
                    list,
                    list.len() as int,
                )
            },
            (Err(e), Err(failure)) => {
                &&& e.path == path
                &&& match failure {
                    ArchiveFailure::Parse => e.kind == LoadErrorKind::ArchiveParse,
                    ArchiveFailure::Symbols => e.kind == LoadErrorKind::ArchiveSymbols,
                    ArchiveFailure::Symbol => e.kind == LoadErrorKind::ArchiveSymbol,
                    ArchiveFailure::Member => e.kind == (LoadErrorKind::ArchiveMember {
                        offset: 0,
                    }),
                }
            },
            _ => false,
        },
{
}

/// An archive member is loaded as the object that its data stand for, under the path of the archive
/// with the name of the member in brackets, if its data are those of a COFF object. Else the error
/// says whether the member is missing, unreadable, of an unknown kind, of an import library, or of
/// a kind that cannot be used.
pub proof fn members_are_loaded_as_objects(archive: ArchiveView, offset: u64)
    ensures
        ({
            let r = pe_archive::member_object(archive, offset);
            match coff::archive_member_name_of(archive.data, offset) {
                Err(failure) => {
                    let kind = match failure {
                        ArchiveFailure::Parse => LoadErrorKind::ArchiveParse,
                        ArchiveFailure::Symbols => LoadErrorKind::ArchiveSymbols,
                        ArchiveFailure::Symbol => LoadErrorKind::ArchiveSymbol,
                        ArchiveFailure::Member => LoadErrorKind::ArchiveMember { offset },
                    };
                    r == Err::<ObjectView, LoadErrorView>(
                        LoadErrorView { path: archive.path, kind },
                    )
                },
                Ok(name) => {
                    let path = archive.path + seq!['('] + coff::lossy_text(name) + seq![')'];
                    match coff::archive_member_data_of(archive.data, offset) {
                        None => r == Err::<ObjectView, LoadErrorView>(
                            LoadErrorView { path, kind: LoadErrorKind::MemberData },
                        ),
                        Some(data) => match coff::file_kind_of(data) {
                            Some(InputKind::Coff) => r == pe_object::parsed_object(path, data),
                            Some(InputKind::CoffBig) => r == pe_object::parsed_object(path, data),
                            Some(InputKind::CoffImport) => r == Err::<ObjectView, LoadErrorView>(
                                LoadErrorView { path, kind: LoadErrorKind::ImportLibrary },
                            ),
                            None => r == Err::<ObjectView, LoadErrorView>(
                                LoadErrorView { path, kind: LoadErrorKind::MemberIdentify },
                            ),
                            Some(kind) => r == Err::<ObjectView, LoadErrorView>(
                                LoadErrorView {
                                    path,
                                    kind: LoadErrorKind::UnsupportedMember { kind },
                                },
                            ),
                        },
                    }
                },
            }
        }),
{
}

// ---- loading of members ----

/// Whether the archive has a member for the name that has not been loaded.
pub open spec fn can_supply(
    archives: Seq<ArchiveView>,
    loaded: Seq<Set<u64>>,
    name: Seq<char>,
    a: int,
) -> bool {
    &&& 0 <= a < archives.len()
    &&& archives[a].members.contains_key(name)
    &&& !loaded[a].contains(archives[a].members[name])
}

/// The archive that supplies a name is the first that can.
proof fn lemma_first_supplier(
    archives: Seq<ArchiveView>,
    loaded: Seq<Set<u64>>,
    name: Seq<char>,
    from: int,
)
    requires
        0 <= from <= archives.len(),
        forall|a: int| 0 <= a < from ==> !#[trigger] can_supply(archives, loaded, name, a),
    ensures
        match pe_archive::supplier(archives, loaded, name, from) {
            Some(a) => can_supply(archives, loaded, name, a) && forall|b: int|
                0 <= b < a ==> !#[trigger] can_supply(archives, loaded, name, b),
            None => forall|a: int| !#[trigger] can_supply(archives, loaded, name, a),
        },
    decreases archives.len() - from,
{
    if from < archives.len() && !can_supply(archives, loaded, name, from) {
        lemma_first_supplier(archives, loaded, name, from + 1);
    }
}

/// A name that is looked for is supplied by the first archive that has a member for it that has not
/// been loaded: that member is loaded behind all other objects, and marked as loaded. Where there is
/// no such archive, nothing happens; where the member cannot be loaded, that is the error.
pub proof fn names_are_supplied_by_the_first_archive(
    archives: Seq<ArchiveView>,
    state: LoadState,
    name: Seq<char>,
)
    ensures
        ({
            let r = pe_archive::with_member(archives, state, name);
            &&& (forall|a: int| !#[trigger] can_supply(archives, state.loaded, name, a)) ==> r
                == Ok::<LoadState, LoadErrorView>(state)
            &&& forall|a: int|
                #[trigger] can_supply(archives, state.loaded, name, a) && (forall|b: int|
                    0 <= b < a ==> !#[trigger] can_supply(archives, state.loaded, name, b)) ==> {
                    let offset = archives[a].members[name];
                    match pe_archive::member_object(archives[a], offset) {
                        Err(e) => r == Err::<LoadState, LoadErrorView>(e),
                        Ok(object) => {
                            &&& r matches Ok(after)
                            &&& after.objects == state.objects.push(object)
                            &&& after.loaded == state.loaded.update(
                                a,
                                state.loaded[a].insert(offset),
                            )
                        },
                    }
                }
        }),
{
    lemma_first_supplier(archives, state.loaded, name, 0);
    let found = pe_archive::supplier(archives, state.loaded, name, 0);
    assert forall|a: int|
        #[trigger] can_supply(archives, state.loaded, name, a) && (forall|b: int|
            0 <= b < a ==> !#[trigger] can_supply(archives, state.loaded, name, b)) implies found
        == Some(a) by {
        if found is Some {
            let b = found->0;
            assert(can_supply(archives, state.loaded, name, b));
            if b < a {
            } else if a < b {
                assert(!can_supply(archives, state.loaded, name, a));
            }
        }
    }
}

/// Names are looked for one after the other, and the first member that cannot be loaded ends it
/// all.
pub proof fn names_are_looked_for_in_order(
    archives: Seq<ArchiveView>,
    state: LoadState,
    names: Seq<Seq<char>>,
    more: Seq<char>,
)
    ensures
        pe_archive::with_members(archives, state, Seq::empty(), 0) == Ok::<
            LoadState,
            LoadErrorView,
        >(state),
        pe_archive::with_members(
            archives,
            state,
            names.push(more),
            names.len() as int + 1,
        ) == (match pe_archive::with_members(archives, state, names, names.len() as int) {
            Err(e) => Err(e),
            Ok(before) => pe_archive::with_member(archives, before, more),
        }),
{
    lemma_same_names(archives, state, names, names.push(more), names.len() as int);
}

/// Only the first names count.
proof fn lemma_same_names(
    archives: Seq<ArchiveView>,
    state: LoadState,
    a: Seq<Seq<char>>,
    b: Seq<Seq<char>>,
    n: int,
)
    requires
        0 <= n <= a.len(),
        n <= b.len(),
        forall|k: int| 0 <= k < n ==> #[trigger] a[k] == b[k],
    ensures
        pe_archive::with_members(archives, state, a, n) == pe_archive::with_members(
            archives,
            state,
            b,
            n,
        ),
    decreases n,
{
    if n > 0 {
        lemma_same_names(archives, state, a, b, n - 1);
        assert(a[n - 1] == b[n - 1]);
    }
}

/// In each pass all names are looked for that are unresolved at its start. Loading starts with the
/// given objects and no member marked as loaded, and ends with the first pass that loads nothing.
pub proof fn loading_goes_on_until_nothing_is_loaded(
    archives: Seq<ArchiveView>,
    objects: Seq<ObjectView>,
    state: LoadState,
    passes: nat,
    all: Seq<ObjectView>,
)
    ensures
        pe_archive::after_pass(archives, state) == pe_archive::with_members(
            archives,
            state,
            pe_archive::unresolved_names(state.objects),
            pe_archive::unresolved_names(state.objects).len() as int,
        ),
        pe_archive::after_passes(archives, state, 0) == Ok::<LoadState, LoadErrorView>(state),
        pe_archive::after_passes(archives, state, passes + 1) == (match pe_archive::after_passes(
            archives,
            state,
            passes,
        ) {
            Err(e) => Err(e),
            Ok(before) => pe_archive::after_pass(archives, before),
        }),
        pe_archive::start_state(objects, archives).objects == objects,
        forall|a: int|
            0 <= a < archives.len() ==> (#[trigger] pe_archive::start_state(
                objects,
                archives,
            ).loaded[a]) == Set::<u64>::empty(),
        pe_archive::loading_ends(archives, objects, Ok(all)) <==> exists|n: nat, end: LoadState|
            {
                &&& #[trigger] pe_archive::after_passes(
                    archives,
                    pe_archive::start_state(objects, archives),
                    n,
                ) == Ok::<LoadState, LoadErrorView>(end)
                &&& #[trigger] pe_archive::after_pass(archives, end) == Ok::<
                    LoadState,
                    LoadErrorView,
                >(end)
                &&& end.objects == all
            },
{
    let start = pe_archive::start_state(objects, archives);
    if pe_archive::loading_ends(archives, objects, Ok(all)) {
        let n = choose|n: nat| #[trigger]
            pe_archive::ends_after(archives, objects, n, Ok(all));
        let end = pe_archive::after_passes(archives, start, n)->Ok_0;
        assert(pe_archive::after_passes(archives, start, n) == Ok::<LoadState, LoadErrorView>(end));
        assert(pe_archive::after_pass(archives, end) == Ok::<LoadState, LoadErrorView>(end));
    }
    if exists|n: nat, end: LoadState|
        {
            &&& #[trigger] pe_archive::after_passes(archives, start, n) == Ok::<
                LoadState,
                LoadErrorView,
            >(end)
            &&& #[trigger] pe_archive::after_pass(archives, end) == Ok::<LoadState, LoadErrorView>(
                end,
            )
            &&& end.objects == all
        } {
        let (n, end) = choose|n: nat, end: LoadState|
            {
                &&& #[trigger] pe_archive::after_passes(archives, start, n) == Ok::<
                    LoadState,
                    LoadErrorView,
                >(end)
                &&& #[trigger] pe_archive::after_pass(archives, end) == Ok::<
                    LoadState,
                    LoadErrorView,
                >(end)
                &&& end.objects == all
            };
        assert(pe_archive::ends_after(archives, objects, n, Ok(all)));
    }
}

// ---- inputs ----

/// A COFF object becomes the last object, and an archive the last archive; all others are as
/// before. Inputs of all other kinds are refused, and the error names the input and its kind.
pub proof fn inputs_become_objects_or_archives(
    objects: Seq<ObjectView>,
    archives: Seq<ArchiveView>,
    path: Seq<char>,
    data: Seq<u8>,
)
    ensures
        ({
            let r = pe_inputs::with_input(objects, archives, path, data);
            match coff::file_kind_of(data) {
                Some(InputKind::Coff) | Some(InputKind::CoffBig) => match pe_object::parsed_object(
                    path,
                    data,
                ) {
                    Ok(object) => r == Ok::<
                        (Seq<ObjectView>, Seq<ArchiveView>),
                        LoadErrorView,
                    >((objects.push(object), archives)),
                    Err(e) => r == Err::<(Seq<ObjectView>, Seq<ArchiveView>), LoadErrorView>(e),
                },
                Some(InputKind::Archive) => match pe_archive::parsed_archive(path, data) {
                    Ok(archive) => r == Ok::<
                        (Seq<ObjectView>, Seq<ArchiveView>),
                        LoadErrorView,
                    >((objects, archives.push(archive))),
                    Err(e) => r == Err::<(Seq<ObjectView>, Seq<ArchiveView>), LoadErrorView>(e),
                },
                None => r == Err::<(Seq<ObjectView>, Seq<ArchiveView>), LoadErrorView>(
                    LoadErrorView { path, kind: LoadErrorKind::Identify },
                ),
                Some(InputKind::CoffImport) => r == Err::<
                    (Seq<ObjectView>, Seq<ArchiveView>),
                    LoadErrorView,
                >(LoadErrorView { path, kind: LoadErrorKind::ImportLibrary }),
                Some(kind) => r == Err::<(Seq<ObjectView>, Seq<ArchiveView>), LoadErrorView>(
                    LoadErrorView { path, kind: LoadErrorKind::UnsupportedKind { kind } },
                ),
            }
        }),
{
}

/// Inputs are added one after the other, and the first that cannot be loaded ends it all.
pub proof fn inputs_are_added_in_order(files: Seq<InputFile>, more: InputFile)
    ensures
        pe_inputs::with_inputs(Seq::empty(), 0) == Ok::<
            (Seq<ObjectView>, Seq<ArchiveView>),
            LoadErrorView,
        >((Seq::empty(), Seq::empty())),
        pe_inputs::with_inputs(files.push(more), files.len() as int + 1) == (
        match pe_inputs::with_inputs(files, files.len() as int) {
            Err(e) => Err(e),
            Ok((objects, archives)) => pe_inputs::with_input(
                objects,
                archives,
                more.path@,
                more.data@,
            ),
        }),
{
    lemma_same_inputs(files, files.push(more), files.len() as int);
}

/// Only the first inputs count.
proof fn lemma_same_inputs(a: Seq<InputFile>, b: Seq<InputFile>, n: int)
    requires
        0 <= n <= a.len(),
        n <= b.len(),
        forall|k: int| 0 <= k < n ==> #[trigger] a[k] == b[k],
    ensures
        pe_inputs::with_inputs(a, n) == pe_inputs::with_inputs(b, n),
    decreases n,
{
    if n > 0 {
        lemma_same_inputs(a, b, n - 1);
        assert(a[n - 1] == b[n - 1]);
    }
}

} // verus!
