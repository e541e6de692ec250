//! Archives, and the members of them that a link needs.
use crate::coff;
use crate::coff::{
    archive_member_data, archive_member_name, archive_symbols, file_kind, text_lossy,
    ArchiveFailure, InputKind,
};
use crate::error::{LoadError, LoadErrorKind, LoadErrorView};
use crate::input;
use crate::input::{InputObject, ObjectView, SymbolView};
use crate::pe_grouping;
use crate::pe_object;
use crate::pe_object::parse_input_object;
use crate::pe_symbols;
use crate::text;
use std::collections::HashSet;
use vstd::hash_map::StringHashMap;
use vstd::hash_set::StringHashSet;
use vstd::prelude::*;

verus! {

/// An archive, with the members that define each name.
pub struct InputArchive {
    pub path: String,
    pub data: Vec<u8>,
    /// The offset of the member that defines a name.
    pub members_by_symbol: StringHashMap<u64>,
}

/// Model of an archive.
pub struct ArchiveView {
    pub path: Seq<char>,
    pub data: Seq<u8>,
    pub members: Map<Seq<char>, u64>,
}

impl View for InputArchive {
    type V = ArchiveView;

    open spec fn view(&self) -> ArchiveView {
        ArchiveView {
            path: self.path@,
            data: self.data@,
            members: self.members_by_symbol@,
        }
    }
}

impl ArchiveView {
    /// Whether the archive defines finitely many names.
    pub open spec fn wf(self) -> bool {
        self.members.dom().finite()
    }
}

/// The models of a list of archives.
pub open spec fn archive_views(archives: Seq<InputArchive>) -> Seq<ArchiveView> {
    Seq::new(archives.len(), |a: int| archives[a]@)
}

// ---- symbol tables of archives ----

/// The members that define the first `n` symbols of an archive; the first member that defines a
/// name counts.
pub open spec fn members_among(symbols: Seq<(Seq<u8>, u64)>, n: int) -> Map<Seq<char>, u64>
    decreases n,
{
    if n <= 0 {
        Map::empty()
    } else {
        let before = members_among(symbols, n - 1);
        let name = coff::lossy_text(symbols[n - 1].0);
        if before.contains_key(name) {
            before
        } else {
            before.insert(name, symbols[n - 1].1)
        }
    }
}

/// Returns the members that define the symbols of an archive; the first member that defines a name
/// counts.
pub fn index_members(symbols: &Vec<(Vec<u8>, u64)>) -> (members: StringHashMap<u64>)
    ensures
        members@ == members_among(coff::archive_symbol_views(symbols@), symbols@.len() as int),
        members@.dom().finite(),
{
    let ghost views = coff::archive_symbol_views(symbols@);
    let mut members: StringHashMap<u64> = StringHashMap::new();
    let mut n: usize = 0;
    while n < symbols.len()
        invariant
            n <= symbols@.len(),
            views == coff::archive_symbol_views(symbols@),
            members@ == members_among(views, n as int),
            members@.dom().finite(),
        decreases symbols@.len() - n,
    {
        let symbol = &symbols[n];
        assert(views[n as int] == (symbol.0@, symbol.1));
        let name = text_lossy(symbol.0.as_slice());
        if !members.contains_key(name.as_str()) {
            members.insert(name, symbol.1);
        }
        n += 1;
    }
    members
}

/// How the linker calls what went wrong in an archive.
pub open spec fn failure_kind(failure: ArchiveFailure, offset: u64) -> LoadErrorKind {
    match failure {
        ArchiveFailure::Parse => LoadErrorKind::ArchiveParse,
        ArchiveFailure::Symbols => LoadErrorKind::ArchiveSymbols,
        ArchiveFailure::Symbol => LoadErrorKind::ArchiveSymbol,
        ArchiveFailure::Member => LoadErrorKind::ArchiveMember { offset },
    }
}

/// Returns how the linker calls what went wrong in an archive.
pub fn convert_failure(failure: ArchiveFailure, offset: u64) -> (kind: LoadErrorKind)
    ensures
        kind == failure_kind(failure, offset),
{
    match failure {
        ArchiveFailure::Parse => LoadErrorKind::ArchiveParse,
        ArchiveFailure::Symbols => LoadErrorKind::ArchiveSymbols,
        ArchiveFailure::Symbol => LoadErrorKind::ArchiveSymbol,
        ArchiveFailure::Member => LoadErrorKind::ArchiveMember { offset },
    }
}

/// The archive that the bytes stand for.
pub open spec fn parsed_archive(path: Seq<char>, data: Seq<u8>) -> Result<
    ArchiveView,
    LoadErrorView,
> {
    match coff::archive_symbols_of(data) {
        Err(failure) => Err(pe_object::load_error(path, failure_kind(failure, 0))),
        Ok(None) => Ok(ArchiveView { path, data, members: Map::empty() }),
        Ok(Some(symbols)) => Ok(
            ArchiveView { path, data, members: members_among(symbols, symbols.len() as int) },
        ),
    }
}

/// Returns the archive that the bytes stand for.
pub fn parse_archive(path: String, data: Vec<u8>) -> (r: Result<InputArchive, LoadError>)
    ensures
        match r {
            Ok(archive) => parsed_archive(path@, data@) == Ok::<ArchiveView, LoadErrorView>(
                archive@,
            ) && archive@.wf(),
            Err(e) => parsed_archive(path@, data@) == Err::<ArchiveView, LoadErrorView>(e@),
        },
{
    match archive_symbols(data.as_slice()) {
        Err(failure) => Err(LoadError { path, kind: convert_failure(failure, 0) }),
        Ok(None) => Ok(InputArchive { path, data, members_by_symbol: StringHashMap::new() }),
        Ok(Some(symbols)) => {
            let members_by_symbol = index_members(&symbols);
            Ok(InputArchive { path, data, members_by_symbol })
        },
    }
}

// ---- members ----

/// The path of an archive member, for messages: that of the archive, with the name of the member
/// in brackets.
pub open spec fn member_path(archive_path: Seq<char>, name: Seq<char>) -> Seq<char> {
    archive_path + seq!['('] + name + seq![')']
}

/// Returns the path of an archive member.
pub fn synthetic_path(archive_path: &String, name: &String) -> (path: String)
    ensures
        path@ == member_path(archive_path@, name@),
{
    let mut path = archive_path.clone();
    proof {
        reveal_strlit("(");
        reveal_strlit(")");
    }
    path.append("(");
    path.append(name.as_str());
    path.append(")");
    assert(path@ =~= member_path(archive_path@, name@));
    path
}

/// The error, if an archive member of this kind is of no use.
pub open spec fn member_kind_error(kind: Option<InputKind>) -> Option<LoadErrorKind> {
    match kind {
        None => Some(LoadErrorKind::MemberIdentify),
        Some(InputKind::Coff) | Some(InputKind::CoffBig) => None,
        Some(InputKind::CoffImport) => Some(LoadErrorKind::ImportLibrary),
        Some(kind) => Some(LoadErrorKind::UnsupportedMember { kind }),
    }
}

/// Returns the error, if an archive member of this kind is of no use.
pub fn check_member_kind(kind: Option<InputKind>) -> (r: Option<LoadErrorKind>)
    ensures
        r == member_kind_error(kind),
{
    match kind {
        None => Some(LoadErrorKind::MemberIdentify),
        Some(InputKind::Coff) | Some(InputKind::CoffBig) => None,
        Some(InputKind::CoffImport) => Some(LoadErrorKind::ImportLibrary),
        Some(kind) => Some(LoadErrorKind::UnsupportedMember { kind }),
    }
}

/// The object in the member at an offset of an archive.
pub open spec fn member_object(archive: ArchiveView, offset: u64) -> Result<
    ObjectView,
    LoadErrorView,
> {
    match coff::archive_member_name_of(archive.data, offset) {
        Err(failure) => Err(pe_object::load_error(archive.path, failure_kind(failure, offset))),
        Ok(raw_name) => {
            let path = member_path(archive.path, coff::lossy_text(raw_name));
            match coff::archive_member_data_of(archive.data, offset) {
                None => Err(pe_object::load_error(path, LoadErrorKind::MemberData)),
                Some(data) => match member_kind_error(coff::file_kind_of(data)) {
                    Some(kind) => Err(pe_object::load_error(path, kind)),
                    None => pe_object::parsed_object(path, data),
                },
            }
        },
    }
}

/// Returns the object in the member at an offset of an archive.
pub fn load_archive_member(archive: &InputArchive, offset: u64) -> (r: Result<
    InputObject,
    LoadError,
>)
    ensures
        pe_object::object_result_view(r) == member_object(archive@, offset),
{
    let raw_name = match archive_member_name(archive.data.as_slice(), offset) {
        Ok(name) => name,
        Err(failure) => return Err(
            LoadError { path: archive.path.clone(), kind: convert_failure(failure, offset) },
        ),
    };
    let name = text_lossy(raw_name.as_slice());
    let path = synthetic_path(&archive.path, &name);
    let data = match archive_member_data(archive.data.as_slice(), offset) {
        Some(data) => data,
        None => return Err(LoadError { path, kind: LoadErrorKind::MemberData }),
    };
    match check_member_kind(file_kind(data.as_slice())) {
        Some(kind) => Err(LoadError { path, kind }),
        None => parse_input_object(path, data.as_slice()),
    }
}

// ---- names that objects define and need ----

/// Whether a symbol defines an external name.
pub open spec fn exports(symbol: SymbolView, name: Seq<char>) -> bool {
    symbol.is_definition && !symbol.is_local && symbol.name == Some(name)
}

/// Whether symbol `s` of object `i` defines an external name.
pub open spec fn exports_at(objects: Seq<ObjectView>, i: int, s: int, name: Seq<char>) -> bool {
    pe_symbols::has_symbol(objects, i, s) && exports(objects[i].symbols[s], name)
}

/// The external names that the objects define.
pub open spec fn defined_names(objects: Seq<ObjectView>) -> Set<Seq<char>> {
    Set::new(|name: Seq<char>| exists|i: int, s: int| #[trigger] exports_at(objects, i, s, name))
}

/// The external names that the symbols in front of symbol `s` of object `i` define.
spec fn defined_before(objects: Seq<ObjectView>, i: int, s: int) -> Set<Seq<char>> {
    Set::new(
        |name: Seq<char>|
            exists|a: int, b: int|
                #[trigger] exports_at(objects, a, b, name) && pe_grouping::comes_before(a, b, i, s),
    )
}

/// Returns the external names that the objects define.
pub fn external_definitions(objects: &[InputObject]) -> (names: StringHashSet)
    ensures
        names@ == defined_names(input::object_views(objects@)),
{
    let ghost views = input::object_views(objects@);
    let mut names = StringHashSet::new();
    assert(names@ =~= defined_before(views, 0, 0));
    let mut i: usize = 0;
    while i < objects.len()
        invariant
            i <= objects@.len(),
            views == input::object_views(objects@),
            names@ == defined_before(views, i as int, 0),
        decreases objects@.len() - i,
    {
        let object = &objects[i];
        assert(views[i as int] == object@);
        let mut s: usize = 0;
        while s < object.symbols.len()
            invariant
                i < objects@.len(),
                s <= object.symbols@.len(),
                views[i as int] == object@,
                i < views.len(),
                names@ == defined_before(views, i as int, s as int),
            decreases object.symbols@.len() - s,
        {
            let symbol = &object.symbols[s];
            assert(views[i as int].symbols[s as int] == symbol@);
            let ghost before = names@;
            if symbol.is_definition && !symbol.is_local {
                if let Some(name) = &symbol.name {
                    names.insert(name.clone());
                    assert(exports_at(views, i as int, s as int, name@));
                }
            }
            assert(names@ =~= defined_before(views, i as int, s + 1)) by {
                assert forall|name: Seq<char>| #[trigger] names@.contains(name) implies
                    defined_before(views, i as int, s + 1).contains(name) by {
                    if before.contains(name) {
                        let (a, b) = choose|a: int, b: int|
                            #[trigger] exports_at(views, a, b, name) && pe_grouping::comes_before(
                                a,
                                b,
                                i as int,
                                s as int,
                            );
                        assert(exports_at(views, a, b, name));
                    } else {
                        assert(exports_at(views, i as int, s as int, name));
                    }
                }
                assert forall|name: Seq<char>| #[trigger]
                    defined_before(views, i as int, s + 1).contains(name) implies names@.contains(
                    name,
                ) by {
                    let (a, b) = choose|a: int, b: int|
                        #[trigger] exports_at(views, a, b, name) && pe_grouping::comes_before(
                            a,
                            b,
                            i as int,
                            s + 1,
                        );
                    if !(a == i && b == s) {
                        assert(exports_at(views, a, b, name));
                        assert(before.contains(name));
                    }
                }
            }
            s += 1;
        }
        assert(names@ =~= defined_before(views, i + 1, 0)) by {
            assert forall|name: Seq<char>| #[trigger]
                defined_before(views, i as int, s as int).contains(name) == defined_before(
                views,
                i + 1,
                0,
            ).contains(name) by {
                if defined_before(views, i as int, s as int).contains(name) {
                    let (a, b) = choose|a: int, b: int|
                        #[trigger] exports_at(views, a, b, name) && pe_grouping::comes_before(
                            a,
                            b,
                            i as int,
                            s as int,
                        );
                    assert(exports_at(views, a, b, name));
                }
                if defined_before(views, i + 1, 0).contains(name) {
                    let (a, b) = choose|a: int, b: int|
                        #[trigger] exports_at(views, a, b, name) && pe_grouping::comes_before(
                            a,
                            b,
                            i + 1,
                            0,
                        );
                    assert(exports_at(views, a, b, name));
                }
            }
        }
        i += 1;
    }
    assert(names@ =~= defined_names(views)) by {
        assert forall|name: Seq<char>| #[trigger]
            defined_before(views, i as int, 0).contains(name) == defined_names(views).contains(
            name,
        ) by {
            if defined_names(views).contains(name) {
                let (a, b) = choose|a: int, b: int| #[trigger] exports_at(views, a, b, name);
                assert(exports_at(views, a, b, name));
            }
        }
    }
    names
}

/// The names that the symbols of the first `i` objects, and the first `s` symbols of the object
/// behind them, need from elsewhere: each once, in the order in which they are first needed.
pub open spec fn needed_names(
    objects: Seq<ObjectView>,
    definitions: Set<Seq<char>>,
    i: int,
    s: int,
) -> Seq<Seq<char>>
    decreases i, s,
{
    if s > 0 {
        let before = needed_names(objects, definitions, i, s - 1);
        let symbol = objects[i].symbols[s - 1];
        match symbol.name {
            Some(name) if symbol.is_undefined && !symbol.is_local && !definitions.contains(name)
                && !before.contains(name) => before.push(name),
            _ => before,
        }
    } else if i > 0 {
        needed_names(objects, definitions, i - 1, objects[i - 1].symbols.len() as int)
    } else {
        Seq::empty()
    }
}

/// Returns the names that the objects need from elsewhere: each once, in the order in which they
/// are first needed.
pub fn unresolved_externals(objects: &[InputObject], definitions: &StringHashSet) -> (
    unresolved: Vec<String>)
    ensures
        text::texts(unresolved@) == needed_names(
            input::object_views(objects@),
            definitions@,
            objects@.len() as int,
            0,
        ),
{
    let ghost views = input::object_views(objects@);
    let mut seen = StringHashSet::new();
    let mut unresolved: Vec<String> = Vec::new();
    assert(text::texts(unresolved@) =~= Seq::<Seq<char>>::empty());
    let mut i: usize = 0;
    while i < objects.len()
        invariant
            i <= objects@.len(),
            views == input::object_views(objects@),
            text::texts(unresolved@) == needed_names(views, definitions@, i as int, 0),
            forall|name: Seq<char>|
                seen@.contains(name) <==> #[trigger] text::texts(unresolved@).contains(name),
        decreases objects@.len() - i,
    {
        let object = &objects[i];
        assert(views[i as int] == object@);
        let mut s: usize = 0;
        while s < object.symbols.len()
            invariant
                i < objects@.len(),
                s <= object.symbols@.len(),
                views[i as int] == object@,
                text::texts(unresolved@) == needed_names(views, definitions@, i as int, s as int),
                forall|name: Seq<char>|
                    seen@.contains(name) <==> #[trigger] text::texts(unresolved@).contains(name),
            decreases object.symbols@.len() - s,
        {
            let symbol = &object.symbols[s];
            assert(views[i as int].symbols[s as int] == symbol@);
            let ghost before = text::texts(unresolved@);
            if symbol.is_undefined && !symbol.is_local {
                if let Some(name) = &symbol.name {
                    if !definitions.contains(name.as_str()) && seen.insert(name.clone()) {
                        unresolved.push(name.clone());
                        assert(text::texts(unresolved@) =~= before.push(name@));
                        assert forall|other: Seq<char>|
                            seen@.contains(other) <==> #[trigger] text::texts(
                                unresolved@,
                            ).contains(other) by {
                            if other == name@ {
                                assert(before.push(name@)[before.len() as int] == other);
                            } else if before.contains(other) {
                                let k = before.index_of(other);
                                assert(before.push(name@)[k] == other);
                            } else if before.push(name@).contains(other) {
                                let k = before.push(name@).index_of(other);
                                assert(before[k] == other);
                            }
                        }
                    }
                }
            }
            s += 1;
        }
        i += 1;
    }
    unresolved
}

// ---- loading of members ----

/// The objects that have been loaded, and for each archive the offsets of the members that have.
#[verifier::ext_equal]
pub struct LoadState {
    pub objects: Seq<ObjectView>,
    pub loaded: Seq<Set<u64>>,
}

/// The state with no member loaded.
pub open spec fn start_state(objects: Seq<ObjectView>, archives: Seq<ArchiveView>) -> LoadState {
    LoadState { objects, loaded: Seq::new(archives.len(), |a: int| Set::empty()) }
}

/// The first archive from the `a`-th on that has a member for the name that is not loaded yet.
pub open spec fn supplier(
    archives: Seq<ArchiveView>,
    loaded: Seq<Set<u64>>,
    name: Seq<char>,
    a: int,
) -> Option<int>
    decreases archives.len() - a,
{
    if a < 0 || a >= archives.len() {
        None
    } else if archives[a].members.contains_key(name) && !loaded[a].contains(
        archives[a].members[name],
    ) {
        Some(a)
    } else {
        supplier(archives, loaded, name, a + 1)
    }
}

/// The state once a member for the name has been loaded, if there is one left.
pub open spec fn with_member(
    archives: Seq<ArchiveView>,
    state: LoadState,
    name: Seq<char>,
) -> Result<LoadState, LoadErrorView> {
    match supplier(archives, state.loaded, name, 0) {
        None => Ok(state),
        Some(a) => {
            let offset = archives[a].members[name];
            match member_object(archives[a], offset) {
                Err(e) => Err(e),
                Ok(object) => Ok(
                    LoadState {
                        objects: state.objects.push(object),
                        loaded: state.loaded.update(a, state.loaded[a].insert(offset)),
                    },
                ),
            }
        },
    }
}

/// The state once members for the first `n` names have been loaded.
pub open spec fn with_members(
    archives: Seq<ArchiveView>,
    state: LoadState,
    names: Seq<Seq<char>>,
    n: int,
) -> Result<LoadState, LoadErrorView>
    decreases n,
{
    if n <= 0 {
        Ok(state)
    } else {
        match with_members(archives, state, names, n - 1) {
            Err(e) => Err(e),
            Ok(before) => with_member(archives, before, names[n - 1]),
        }
    }
}

/// The names that the objects need and do not define.
pub open spec fn unresolved_names(objects: Seq<ObjectView>) -> Seq<Seq<char>> {
    needed_names(objects, defined_names(objects), objects.len() as int, 0)
}

/// The state once a member for each name that the objects need has been loaded.
pub open spec fn after_pass(archives: Seq<ArchiveView>, state: LoadState) -> Result<
    LoadState,
    LoadErrorView,
> {
    let names = unresolved_names(state.objects);
    with_members(archives, state, names, names.len() as int)
}

/// The state after so many passes.
pub open spec fn after_passes(
    archives: Seq<ArchiveView>,
    state: LoadState,
    passes: nat,
) -> Result<LoadState, LoadErrorView>
    decreases passes,
{
    if passes == 0 {
        Ok(state)
    } else {
        match after_passes(archives, state, (passes - 1) as nat) {
            Err(e) => Err(e),
            Ok(before) => after_pass(archives, before),
        }
    }
}

/// Whether one more pass would load nothing.
pub open spec fn is_settled(archives: Seq<ArchiveView>, state: LoadState) -> bool {
    after_pass(archives, state) == Ok::<LoadState, LoadErrorView>(state)
}

/// Whether loading ends so after so many passes: with these objects, once nothing is left to load,
/// or with an error.
pub open spec fn ends_after(
    archives: Seq<ArchiveView>,
    objects: Seq<ObjectView>,
    passes: nat,
    outcome: Result<Seq<ObjectView>, LoadErrorView>,
) -> bool {
    let end = after_passes(archives, start_state(objects, archives), passes);
    match outcome {
        Ok(all) => end is Ok && is_settled(archives, end->Ok_0) && end->Ok_0.objects == all,
        Err(e) => end == Err::<LoadState, LoadErrorView>(e),
    }
}

/// Whether loading ends so.
pub open spec fn loading_ends(
    archives: Seq<ArchiveView>,
    objects: Seq<ObjectView>,
    outcome: Result<Seq<ObjectView>, LoadErrorView>,
) -> bool {
    exists|passes: nat| #[trigger] ends_after(archives, objects, passes, outcome)
}

/// Whether loading members for the names stops at the `n`-th one with an error, once the objects
/// are `all`.
pub open spec fn members_stop_at(
    archives: Seq<ArchiveView>,
    state: LoadState,
    names: Seq<Seq<char>>,
    n: int,
    all: Seq<ObjectView>,
    e: LoadErrorView,
) -> bool {
    &&& 0 <= n < names.len()
    &&& with_members(archives, state, names, n) matches Ok(before)
    &&& before.objects == all
    &&& with_member(archives, before, names[n]) == Err::<LoadState, LoadErrorView>(e)
}

/// Whether loading stops after so many passes, at the `n`-th name of the next one, with an error,
/// once the objects are `all`.
pub open spec fn stops_in_pass(
    archives: Seq<ArchiveView>,
    objects: Seq<ObjectView>,
    passes: nat,
    n: int,
    all: Seq<ObjectView>,
    e: LoadErrorView,
) -> bool {
    &&& after_passes(archives, start_state(objects, archives), passes) matches Ok(before)
    &&& members_stop_at(archives, before, unresolved_names(before.objects), n, all, e)
}

/// Whether loading stops with an error once the objects are `all`: those that were there, and the
/// members in front of the one that cannot be loaded.
pub open spec fn loading_stops(
    archives: Seq<ArchiveView>,
    objects: Seq<ObjectView>,
    all: Seq<ObjectView>,
    e: LoadErrorView,
) -> bool {
    exists|passes: nat, n: int| #[trigger] stops_in_pass(archives, objects, passes, n, all, e)
}

/// Whether the loaded members are members of the archives.
pub open spec fn is_sound_state(archives: Seq<ArchiveView>, loaded: Seq<Set<u64>>) -> bool {
    &&& loaded.len() == archives.len()
    &&& forall|a: int| 0 <= a < archives.len() ==> (#[trigger] archives[a]).wf()
    &&& forall|a: int|
        0 <= a < archives.len() ==> (#[trigger] loaded[a]).finite() && loaded[a].subset_of(
            archives[a].members.values(),
        )
}

/// The members of the first `n` archives that are not loaded yet.
pub open spec fn missing(archives: Seq<ArchiveView>, loaded: Seq<Set<u64>>, n: int) -> int
    decreases n,
{
    if n <= 0 {
        0
    } else {
        missing(archives, loaded, n - 1) + archives[n - 1].members.values().len() - loaded[n
            - 1].len()
    }
}

/// No fewer than no members are missing.
proof fn lemma_missing(archives: Seq<ArchiveView>, loaded: Seq<Set<u64>>, n: int)
    requires
        is_sound_state(archives, loaded),
        0 <= n <= archives.len(),
    ensures
        0 <= missing(archives, loaded, n),
    decreases n,
{
    if n > 0 {
        lemma_missing(archives, loaded, n - 1);
        let _ = loaded[n - 1];
        let values = archives[n - 1].members.values();
        vstd::map_lib::lemma_values_finite(archives[n - 1].members);
        vstd::set_lib::lemma_len_subset(loaded[n - 1], values);
    }
}

/// One more loaded member is one missing member less.
proof fn lemma_missing_update(
    archives: Seq<ArchiveView>,
    loaded: Seq<Set<u64>>,
    a: int,
    offset: u64,
    n: int,
)
    requires
        is_sound_state(archives, loaded),
        0 <= a < archives.len(),
        0 <= n <= archives.len(),
        !loaded[a].contains(offset),
    ensures
        missing(archives, loaded.update(a, loaded[a].insert(offset)), n) == missing(
            archives,
            loaded,
            n,
        ) - (if a < n {
            1int
        } else {
            0
        }),
    decreases n,
{
    if n > 0 {
        lemma_missing_update(archives, loaded, a, offset, n - 1);
        let _ = loaded[a];
    }
}

/// What `supplier` finds is an archive with a member for the name that is not loaded yet.
pub proof fn lemma_supplier(
    archives: Seq<ArchiveView>,
    loaded: Seq<Set<u64>>,
    name: Seq<char>,
    a: int,
)
    requires
        0 <= a,
    ensures
        match supplier(archives, loaded, name, a) {
            Some(b) => a <= b < archives.len() && archives[b].members.contains_key(name)
                && !loaded[b].contains(archives[b].members[name]),
            None => forall|b: int|
                a <= b < archives.len() && (#[trigger] archives[b]).members.contains_key(name)
                    ==> loaded[b].contains(archives[b].members[name]),
        },
    decreases archives.len() - a,
{
    if a < archives.len() {
        if !(archives[a].members.contains_key(name) && !loaded[a].contains(
            archives[a].members[name],
        )) {
            lemma_supplier(archives, loaded, name, a + 1);
        }
    }
}

/// Loading a member keeps a sound state, adds one object at the end and leaves one member less to
/// load, or changes nothing.
pub proof fn lemma_with_member(archives: Seq<ArchiveView>, state: LoadState, name: Seq<char>)
    requires
        is_sound_state(archives, state.loaded),
        with_member(archives, state, name) is Ok,
    ensures
        ({
            let after = with_member(archives, state, name)->Ok_0;
            &&& is_sound_state(archives, after.loaded)
            &&& after.objects.len() + missing(archives, after.loaded, archives.len() as int)
                == state.objects.len() + missing(archives, state.loaded, archives.len() as int)
            &&& state.objects.len() <= after.objects.len()
            &&& after.objects.take(state.objects.len() as int) == state.objects
            &&& after.objects.len() == state.objects.len() ==> after == state
        }),
{
    lemma_supplier(archives, state.loaded, name, 0);
    let after = with_member(archives, state, name)->Ok_0;
    match supplier(archives, state.loaded, name, 0) {
        None => {
            assert(after.objects.take(state.objects.len() as int) =~= state.objects);
        },
        Some(a) => {
            let offset = archives[a].members[name];
            let _ = state.loaded[a];
            lemma_missing_update(archives, state.loaded, a, offset, archives.len() as int);
            assert(after.objects.take(state.objects.len() as int) =~= state.objects);
            assert(archives[a].members.values().contains(offset)) by {
                assert(archives[a].members.dom().contains(name));
            }
            assert forall|b: int| 0 <= b < archives.len() implies (
            #[trigger] after.loaded[b]).finite() && after.loaded[b].subset_of(
                archives[b].members.values(),
            ) by {
                assert(state.loaded[b].finite());
                if b == a {
                    assert(after.loaded[b] == state.loaded[b].insert(offset));
                }
            }
        },
    }
}

/// Loading members keeps a sound state, adds objects at the end and leaves as many members less to
/// load, or changes nothing.
pub proof fn lemma_with_members(
    archives: Seq<ArchiveView>,
    state: LoadState,
    names: Seq<Seq<char>>,
    n: int,
)
    requires
        is_sound_state(archives, state.loaded),
        0 <= n <= names.len(),
        with_members(archives, state, names, n) is Ok,
    ensures
        ({
            let after = with_members(archives, state, names, n)->Ok_0;
            &&& is_sound_state(archives, after.loaded)
            &&& after.objects.len() + missing(archives, after.loaded, archives.len() as int)
                == state.objects.len() + missing(archives, state.loaded, archives.len() as int)
            &&& state.objects.len() <= after.objects.len()
            &&& after.objects.take(state.objects.len() as int) == state.objects
            &&& after.objects.len() == state.objects.len() ==> after == state
        }),
    decreases n,
{
    if n > 0 {
        lemma_with_members(archives, state, names, n - 1);
        let before = with_members(archives, state, names, n - 1)->Ok_0;
        lemma_with_member(archives, before, names[n - 1]);
        let after = with_members(archives, state, names, n)->Ok_0;
        let count = state.objects.len() as int;
        assert(after.objects.take(count) =~= after.objects.take(
            before.objects.len() as int,
        ).take(count));
    } else {
        assert(state.objects.take(state.objects.len() as int) =~= state.objects);
    }
}

/// An error stays.
proof fn lemma_with_members_error(
    archives: Seq<ArchiveView>,
    state: LoadState,
    names: Seq<Seq<char>>,
    n: int,
    m: int,
)
    requires
        0 <= n <= m,
        with_members(archives, state, names, n) is Err,
    ensures
        with_members(archives, state, names, m) == with_members(archives, state, names, n),
    decreases m,
{
    if n < m {
        lemma_with_members_error(archives, state, names, n, m - 1);
    }
}

/// The offsets in a list of sets.
pub open spec fn loaded_views(loaded: Seq<HashSet<u64>>) -> Seq<Set<u64>> {
    Seq::new(loaded.len(), |a: int| loaded[a]@)
}

/// The state that is made of objects and of loaded members.
pub open spec fn state_of(objects: Seq<InputObject>, loaded: Seq<HashSet<u64>>) -> LoadState {
    LoadState { objects: input::object_views(objects), loaded: loaded_views(loaded) }
}

/// Returns the first archive that has a member for the name that is not loaded yet, and the offset
/// of the member.
fn find_supplier(
    archives: &[InputArchive],
    loaded: &Vec<HashSet<u64>>,
    name: &String,
) -> (r: Option<(usize, u64)>)
    requires
        loaded@.len() == archives@.len(),
    ensures
        ({
            let views = archive_views(archives@);
            match (r, supplier(views, loaded_views(loaded@), name@, 0)) {
                (Some((a, offset)), Some(b)) => a == b && a < archives@.len() && offset
                    == views[b].members[name@],
                (None, None) => true,
                _ => false,
            }
        }),
{
    broadcast use vstd::std_specs::hash::group_hash_axioms;

    let ghost views = archive_views(archives@);
    let ghost sets = loaded_views(loaded@);
    let mut a: usize = 0;
    while a < archives.len()
        invariant
            a <= archives@.len(),
            loaded@.len() == archives@.len(),
            views == archive_views(archives@),
            sets == loaded_views(loaded@),
            supplier(views, sets, name@, 0) == supplier(views, sets, name@, a as int),
        decreases archives@.len() - a,
    {
        assert(views[a as int] == archives@[a as int]@);
        assert(sets[a as int] == loaded@[a as int]@);
        if let Some(offset) = archives[a].members_by_symbol.get(name.as_str()) {
            if !loaded[a].contains(offset) {
                return Some((a, *offset));
            }
        }
        a += 1;
    }
    None
}

/// Loads a member for each of the names, as far as there are any left.
fn load_members(
    objects: &mut Vec<InputObject>,
    archives: &[InputArchive],
    loaded: &mut Vec<HashSet<u64>>,
    names: &Vec<String>,
) -> (r: Result<(), LoadError>)
    requires
        old(loaded)@.len() == archives@.len(),
    ensures
        final(loaded)@.len() == archives@.len(),
        old(objects)@.len() <= final(objects)@.len(),
        final(objects)@.take(old(objects)@.len() as int) == old(objects)@,
        match r {
            Ok(()) => with_members(
                archive_views(archives@),
                state_of(old(objects)@, old(loaded)@),
                text::texts(names@),
                names@.len() as int,
            ) == Ok::<LoadState, LoadErrorView>(state_of(final(objects)@, final(loaded)@)),
            Err(e) => {
                &&& with_members(
                    archive_views(archives@),
                    state_of(old(objects)@, old(loaded)@),
                    text::texts(names@),
                    names@.len() as int,
                ) == Err::<LoadState, LoadErrorView>(e@)
                &&& exists|n: int| #[trigger]
                    members_stop_at(
                        archive_views(archives@),
                        state_of(old(objects)@, old(loaded)@),
                        text::texts(names@),
                        n,
                        input::object_views(final(objects)@),
                        e@,
                    )
            },
        },
{
    broadcast use vstd::std_specs::hash::group_hash_axioms;

    let ghost views = archive_views(archives@);
    let ghost start = state_of(objects@, loaded@);
    let ghost wanted = text::texts(names@);
    assert(objects@.take(objects@.len() as int) =~= objects@);
    let mut n: usize = 0;
    while n < names.len()
        invariant
            n <= names@.len(),
            loaded@.len() == archives@.len(),
            views == archive_views(archives@),
            wanted == text::texts(names@),
            start == state_of(old(objects)@, old(loaded)@),
            old(objects)@.len() <= objects@.len(),
            objects@.take(old(objects)@.len() as int) == old(objects)@,
            with_members(views, start, wanted, n as int) == Ok::<LoadState, LoadErrorView>(
                state_of(objects@, loaded@),
            ),
        decreases names@.len() - n,
    {
        let ghost before = state_of(objects@, loaded@);
        assert(wanted[n as int] == names@[n as int]@);
        proof {
            if with_members(views, start, wanted, n + 1) is Err {
                lemma_with_members_error(views, start, wanted, n + 1, wanted.len() as int);
            }
        }
        if let Some((a, offset)) = find_supplier(archives, loaded, &names[n]) {
            assert(views[a as int] == archives@[a as int]@);
            match load_archive_member(&archives[a], offset) {
                Ok(object) => {
                    let ghost old_objects = objects@;
                    let ghost old_loaded = loaded@;
                    loaded[a].insert(offset);
                    objects.push(object);
                    assert(objects@.take(old(objects)@.len() as int) =~= old_objects.take(
                        old(objects)@.len() as int,
                    ));
                    assert(input::object_views(objects@) =~= before.objects.push(object@));
                    assert(loaded_views(loaded@) =~= before.loaded.update(
                        a as int,
                        before.loaded[a as int].insert(offset),
                    ));
                },
                Err(e) => {
                    assert(members_stop_at(
                        views,
                        start,
                        wanted,
                        n as int,
                        input::object_views(objects@),
                        e@,
                    ));
                    return Err(e);
                },
            }
        }
        n += 1;
    }
    Ok(())
}

/// Loads the archive members that the objects need, and those that these need, until no name is
/// left that an archive can supply, or until a member cannot be loaded. The members go behind the
/// objects that are there.
pub fn load_archive_members(
    objects: &mut Vec<InputObject>,
    archives: &[InputArchive],
) -> (r: Result<(), LoadError>)
    requires
        forall|a: int| 0 <= a < archives@.len() ==> (#[trigger] archives@[a])@.wf(),
    ensures
        loading_ends(
            archive_views(archives@),
            input::object_views(old(objects)@),
            match r {
                Ok(()) => Ok(input::object_views(final(objects)@)),
                Err(e) => Err(e@),
            },
        ),
        r matches Err(e) ==> loading_stops(
            archive_views(archives@),
            input::object_views(old(objects)@),
            input::object_views(final(objects)@),
            e@,
        ),
        old(objects)@.len() <= final(objects)@.len(),
        final(objects)@.take(old(objects)@.len() as int) == old(objects)@,
{
    let ghost views = archive_views(archives@);
    let ghost start = start_state(input::object_views(objects@), views);
    let mut loaded: Vec<HashSet<u64>> = Vec::new();
    let mut a: usize = 0;
    while a < archives.len()
        invariant
            a <= archives@.len(),
            loaded@.len() == a,
            forall|b: int| 0 <= b < a ==> (#[trigger] loaded@[b])@ == Set::<u64>::empty(),
        decreases archives@.len() - a,
    {
        loaded.push(HashSet::new());
        a += 1;
    }
    assert(loaded_views(loaded@) =~= start.loaded);
    assert(objects@.take(objects@.len() as int) =~= objects@);
    let ghost mut passes: nat = 0;
    let mut settled = false;
    while !settled
        invariant
            loaded@.len() == archives@.len(),
            views == archive_views(archives@),
            start == start_state(input::object_views(old(objects)@), views),
            old(objects)@.len() <= objects@.len(),
            objects@.take(old(objects)@.len() as int) == old(objects)@,
            is_sound_state(views, loaded_views(loaded@)),
            after_passes(views, start, passes) == Ok::<LoadState, LoadErrorView>(
                state_of(objects@, loaded@),
            ),
            settled ==> is_settled(views, state_of(objects@, loaded@)),
        decreases
                missing(views, loaded_views(loaded@), views.len() as int),
                (if settled {
                    0int
                } else {
                    1
                }),
    {
        let ghost before = state_of(objects@, loaded@);
        let ghost given = objects@;
        let count = objects.len();
        let definitions = external_definitions(objects.as_slice());
        let names = unresolved_externals(objects.as_slice(), &definitions);
        assert(text::texts(names@) == unresolved_names(before.objects));
        proof {
            assert(after_passes(views, start, passes + 1) == after_pass(views, before));
            passes = passes + 1;
            if after_pass(views, before) is Ok {
                lemma_with_members(
                    views,
                    before,
                    unresolved_names(before.objects),
                    unresolved_names(before.objects).len() as int,
                );
            }
        }
        let outcome = load_members(objects, archives, &mut loaded, &names);
        assert(objects@.take(old(objects)@.len() as int) =~= objects@.take(given.len() as int).take(
            old(objects)@.len() as int,
        ));
        match outcome {
            Ok(()) => {},
            Err(e) => {
                proof {
                    let n = choose|n: int| #[trigger]
                        members_stop_at(
                            views,
                            before,
                            text::texts(names@),
                            n,
                            input::object_views(objects@),
                            e@,
                        );
                    assert(stops_in_pass(
                        views,
                        input::object_views(old(objects)@),
                        (passes - 1) as nat,
                        n,
                        input::object_views(objects@),
                        e@,
                    ));
                }
                assert(ends_after(
                    views,
                    input::object_views(old(objects)@),
                    passes,
                    Err::<Seq<ObjectView>, LoadErrorView>(e@),
                ));
                return Err(e);
            },
        }
        proof {
            lemma_missing(views, loaded_views(loaded@), views.len() as int);
            assert(state_of(objects@, loaded@).objects.len() == objects@.len());
        }
        if objects.len() == count {
            settled = true;
        }
    }
    assert(ends_after(
        views,
        input::object_views(old(objects)@),
        passes,
        Ok::<Seq<ObjectView>, LoadErrorView>(input::object_views(objects@)),
    ));
    Ok(())
}

} // verus!
