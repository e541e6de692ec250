//! Inputs of a link: where they are looked for, and what becomes of them.
use crate::args::{Input, InputSpec};
use crate::coff;
use crate::coff::{file_kind, InputKind};
use crate::error::{LoadError, LoadErrorKind, LoadErrorView};
use crate::file_name;
use crate::file_name::with_extension;
use crate::input;
use crate::input::{InputObject, ObjectView};
use crate::pe_archive;
use crate::pe_archive::{load_archive_members, parse_archive, ArchiveView, InputArchive};
use crate::pe_object;
use crate::pe_object::parse_input_object;
use vstd::prelude::*;

verus! {

// ---- where inputs are looked for ----

/// A place where an input may be.
#[derive(Clone, Copy, PartialEq, Eq, Debug, Structural)]
pub enum PathCandidate {
    /// The path as it was given.
    AsGiven,
    /// Below the directory that is searched before all others.
    SearchFirst,
    /// Below the search directory with this number.
    SearchDir(usize),
}

/// The places below the search directories, in the order in which they are tried.
pub open spec fn search_candidates(input: Input, num_dirs: usize) -> Seq<PathCandidate> {
    let dirs = Seq::new(num_dirs as nat, |k: int| PathCandidate::SearchDir(k as usize));
    if input.has_search_first {
        seq![PathCandidate::SearchFirst] + dirs
    } else {
        dirs
    }
}

/// The places where an input may be, in the order in which they are tried: a path as it was given
/// first, names of files and of libraries only below the search directories.
pub open spec fn input_candidates(input: Input, num_dirs: usize) -> Seq<PathCandidate> {
    if input.spec is File {
        seq![PathCandidate::AsGiven] + search_candidates(input, num_dirs)
    } else {
        search_candidates(input, num_dirs)
    }
}

/// Whether this is the file name that is looked for: a path and a file name as they were given, a
/// library name with the extension `lib`.
pub open spec fn is_searched_name(spec: InputSpec, name: Seq<char>) -> bool {
    match spec {
        InputSpec::File(path) => name == path@,
        InputSpec::Search(given) => name == given@,
        InputSpec::Lib(given) => file_name::is_portable(given@) ==> name == file_name::extended(
            given@,
            "lib"@,
        ),
    }
}

/// Whether the result is the first of the candidates where a file of that name was found to exist.
pub open spec fn is_first_found<F: Fn(PathCandidate, &str) -> bool>(
    candidates: Seq<PathCandidate>,
    name: &str,
    exists_at: F,
    r: Option<PathCandidate>,
) -> bool {
    match r {
        Some(found) => exists|k: int|
            {
                &&& 0 <= k < candidates.len()
                &&& #[trigger] candidates[k] == found
                &&& call_ensures(exists_at, (found, name), true)
                &&& are_missing(candidates.take(k), name, exists_at)
            },
        None => are_missing(candidates, name, exists_at),
    }
}

/// Whether a file of that name was found at none of the candidates.
pub open spec fn are_missing<F: Fn(PathCandidate, &str) -> bool>(
    candidates: Seq<PathCandidate>,
    name: &str,
    exists_at: F,
) -> bool {
    forall|l: int|
        0 <= l < candidates.len() ==> call_ensures(
            exists_at,
            (#[trigger] candidates[l], name),
            false,
        )
}

/// Whether the function can be asked for each of the candidates.
pub open spec fn can_be_asked<F: Fn(PathCandidate, &str) -> bool>(
    candidates: Seq<PathCandidate>,
    exists_at: F,
) -> bool {
    forall|candidate: PathCandidate, name: &str|
        candidates.contains(candidate) ==> #[trigger] call_requires(exists_at, (candidate, name))
}

/// Returns the first place below the search directories where a file of that name exists.
pub fn search_path<F: Fn(PathCandidate, &str) -> bool>(
    name: &str,
    input: &Input,
    num_dirs: usize,
    exists_at: &F,
) -> (r: Option<PathCandidate>)
    requires
        can_be_asked(search_candidates(*input, num_dirs), *exists_at),
    ensures
        is_first_found(search_candidates(*input, num_dirs), name, *exists_at, r),
{
    let ghost all = search_candidates(*input, num_dirs);
    let ghost skipped: int = if input.has_search_first {
        1
    } else {
        0
    };
    if input.has_search_first {
        assert(all[0] == PathCandidate::SearchFirst);
        if exists_at(PathCandidate::SearchFirst, name) {
            return Some(PathCandidate::SearchFirst);
        }
    }
    let mut k: usize = 0;
    while k < num_dirs
        invariant
            k <= num_dirs,
            all == search_candidates(*input, num_dirs),
            skipped == (if input.has_search_first {
                1int
            } else {
                0
            }),
            can_be_asked(all, *exists_at),
            are_missing(all.take(skipped + k), name, *exists_at),
        decreases num_dirs - k,
    {
        assert(all[skipped + k] == PathCandidate::SearchDir(k));
        if exists_at(PathCandidate::SearchDir(k), name) {
            return Some(PathCandidate::SearchDir(k));
        }
        proof {
            lemma_one_more_missing(all, skipped + k, name, *exists_at);
        }
        k += 1;
    }
    assert(all.take(skipped + num_dirs) =~= all);
    None
}

/// One more candidate without the file.
proof fn lemma_one_more_missing<F: Fn(PathCandidate, &str) -> bool>(
    candidates: Seq<PathCandidate>,
    n: int,
    name: &str,
    exists_at: F,
)
    requires
        0 <= n < candidates.len(),
        are_missing(candidates.take(n), name, exists_at),
        call_ensures(exists_at, (candidates[n], name), false),
    ensures
        are_missing(candidates.take(n + 1), name, exists_at),
{
    let more = candidates.take(n + 1);
    assert forall|l: int| 0 <= l < more.len() implies call_ensures(
        exists_at,
        (#[trigger] more[l], name),
        false,
    ) by {
        if l < n {
            assert(candidates.take(n)[l] == more[l]);
        }
    }
}

/// An input that was found.
#[derive(PartialEq, Eq, Debug)]
pub struct FoundInput {
    pub place: PathCandidate,
    /// The file name that was looked for there.
    pub name: String,
}

/// Whether this is what the search for an input ends with: where it was found, or else the file
/// name that was looked for.
pub open spec fn is_resolved<F: Fn(PathCandidate, &str) -> bool>(
    input: Input,
    num_dirs: usize,
    exists_at: F,
    r: Result<FoundInput, String>,
) -> bool {
    exists|name: &str|
        {
            &&& #[trigger] is_searched_name(input.spec, name@)
            &&& match r {
                Ok(found) => found.name@ == name@ && is_first_found(
                    input_candidates(input, num_dirs),
                    name,
                    exists_at,
                    Some(found.place),
                ),
                Err(missing) => missing@ == name@ && is_first_found(
                    input_candidates(input, num_dirs),
                    name,
                    exists_at,
                    None,
                ),
            }
        }
}

/// Returns the first place where the input exists and the file name that it has there, or else the
/// file name that was looked for.
pub fn resolve_input_path<F: Fn(PathCandidate, &str) -> bool>(
    input: &Input,
    num_dirs: usize,
    exists_at: &F,
) -> (r: Result<FoundInput, String>)
    requires
        can_be_asked(input_candidates(*input, num_dirs), *exists_at),
    ensures
        is_resolved(*input, num_dirs, *exists_at, r),
{
    let ghost all = input_candidates(*input, num_dirs);
    let ghost rest = search_candidates(*input, num_dirs);
    match &input.spec {
        InputSpec::File(path) => {
            let name = path.as_str();
            assert(is_searched_name(input.spec, name@));
            assert(all[0] == PathCandidate::AsGiven);
            if exists_at(PathCandidate::AsGiven, name) {
                return Ok(FoundInput { place: PathCandidate::AsGiven, name: name.to_owned() });
            }
            proof {
                lemma_rest_can_be_asked(all[0], rest, *exists_at);
            }
            let place = search_path(name, input, num_dirs, exists_at);
            proof {
                lemma_found_in_rest(all[0], rest, name, *exists_at, place);
            }
            found_at(place, name)
        },
        InputSpec::Search(given) => {
            let name = given.as_str();
            assert(is_searched_name(input.spec, name@));
            let place = search_path(name, input, num_dirs, exists_at);
            found_at(place, name)
        },
        InputSpec::Lib(given) => {
            proof {
                reveal_strlit("lib");
            }
            let lib_name = with_extension(given.as_str(), "lib");
            let name = lib_name.as_str();
            assert(is_searched_name(input.spec, name@));
            let place = search_path(name, input, num_dirs, exists_at);
            found_at(place, name)
        },
    }
}

/// Returns an input that was found at the place, or else the file name.
fn found_at(place: Option<PathCandidate>, name: &str) -> (r: Result<FoundInput, String>)
    ensures
        match (place, r) {
            (Some(place), Ok(found)) => found.place == place && found.name@ == name@,
            (None, Err(missing)) => missing@ == name@,
            _ => false,
        },
{
    match place {
        Some(place) => Ok(FoundInput { place, name: name.to_owned() }),
        None => Err(name.to_owned()),
    }
}

/// The candidates behind the first one can be asked for too.
proof fn lemma_rest_can_be_asked<F: Fn(PathCandidate, &str) -> bool>(
    first: PathCandidate,
    rest: Seq<PathCandidate>,
    exists_at: F,
)
    requires
        can_be_asked(seq![first] + rest, exists_at),
    ensures
        can_be_asked(rest, exists_at),
{
    let all = seq![first] + rest;
    assert forall|candidate: PathCandidate| rest.contains(candidate) implies #[trigger] all.contains(
        candidate,
    ) by {
        let k = rest.index_of(candidate);
        assert(all[k + 1] == candidate);
    }
}

/// What is the first found behind a candidate without the file is the first found of all.
proof fn lemma_found_in_rest<F: Fn(PathCandidate, &str) -> bool>(
    first: PathCandidate,
    rest: Seq<PathCandidate>,
    name: &str,
    exists_at: F,
    r: Option<PathCandidate>,
)
    requires
        call_ensures(exists_at, (first, name), false),
        is_first_found(rest, name, exists_at, r),
    ensures
        is_first_found(seq![first] + rest, name, exists_at, r),
{
    let all = seq![first] + rest;
    match r {
        Some(found) => {
            let k = choose|k: int|
                {
                    &&& 0 <= k < rest.len()
                    &&& #[trigger] rest[k] == found
                    &&& call_ensures(exists_at, (found, name), true)
                    &&& are_missing(rest.take(k), name, exists_at)
                };
            lemma_missing_before(first, rest.take(k), name, exists_at);
            assert(all[k + 1] == found);
            assert(all.take(k + 1) =~= seq![first] + rest.take(k));
        },
        None => lemma_missing_before(first, rest, name, exists_at),
    }
}

/// One more candidate without the file, before all others.
proof fn lemma_missing_before<F: Fn(PathCandidate, &str) -> bool>(
    first: PathCandidate,
    rest: Seq<PathCandidate>,
    name: &str,
    exists_at: F,
)
    requires
        call_ensures(exists_at, (first, name), false),
        are_missing(rest, name, exists_at),
    ensures
        are_missing(seq![first] + rest, name, exists_at),
{
    let all = seq![first] + rest;
    assert forall|l: int| 0 <= l < all.len() implies call_ensures(
        exists_at,
        (#[trigger] all[l], name),
        false,
    ) by {
        if l > 0 {
            assert(rest[l - 1] == all[l]);
        }
    }
}

// ---- what becomes of them ----

/// What an input is to the link.
#[derive(Clone, Copy, PartialEq, Eq, Debug, Structural)]
pub enum InputRole {
    /// It is linked.
    Object,
    /// Those of its members that are needed are linked.
    Archive,
}

/// What an input of this kind is to the link, if the linker has a use for it.
pub open spec fn role_of(kind: Option<InputKind>) -> Result<InputRole, LoadErrorKind> {
    match kind {
        None => Err(LoadErrorKind::Identify),
        Some(InputKind::Coff) | Some(InputKind::CoffBig) => Ok(InputRole::Object),
        Some(InputKind::Archive) => Ok(InputRole::Archive),
        Some(InputKind::CoffImport) => Err(LoadErrorKind::ImportLibrary),
        Some(kind) => Err(LoadErrorKind::UnsupportedKind { kind }),
    }
}

/// Returns what an input of this kind is to the link.
pub fn input_role(kind: Option<InputKind>) -> (r: Result<InputRole, LoadErrorKind>)
    ensures
        r == role_of(kind),
{
    match kind {
        None => Err(LoadErrorKind::Identify),
        Some(InputKind::Coff) | Some(InputKind::CoffBig) => Ok(InputRole::Object),
        Some(InputKind::Archive) => Ok(InputRole::Archive),
        Some(InputKind::CoffImport) => Err(LoadErrorKind::ImportLibrary),
        Some(kind) => Err(LoadErrorKind::UnsupportedKind { kind }),
    }
}

/// The objects and archives once an input has been added.
pub open spec fn with_input(
    objects: Seq<ObjectView>,
    archives: Seq<ArchiveView>,
    path: Seq<char>,
    data: Seq<u8>,
) -> Result<(Seq<ObjectView>, Seq<ArchiveView>), LoadErrorView> {
    match role_of(coff::file_kind_of(data)) {
        Err(kind) => Err(pe_object::load_error(path, kind)),
        Ok(InputRole::Object) => match pe_object::parsed_object(path, data) {
            Err(e) => Err(e),
            Ok(object) => Ok((objects.push(object), archives)),
        },
        Ok(InputRole::Archive) => match pe_archive::parsed_archive(path, data) {
            Err(e) => Err(e),
            Ok(archive) => Ok((objects, archives.push(archive))),
        },
    }
}

/// Adds an input to the objects or to the archives, by what its bytes are; a failure leaves both
/// alone.
pub fn add_input(
    objects: &mut Vec<InputObject>,
    archives: &mut Vec<InputArchive>,
    path: String,
    data: Vec<u8>,
) -> (r: Result<(), LoadError>)
    requires
        forall|a: int| 0 <= a < old(archives)@.len() ==> (#[trigger] old(archives)@[a])@.wf(),
    ensures
        forall|a: int| 0 <= a < final(archives)@.len() ==> (#[trigger] final(archives)@[a])@.wf(),
        ({
            let after = with_input(
                input::object_views(old(objects)@),
                pe_archive::archive_views(old(archives)@),
                path@,
                data@,
            );
            match r {
                Ok(()) => after == Ok::<(Seq<ObjectView>, Seq<ArchiveView>), LoadErrorView>(
                    (
                        input::object_views(final(objects)@),
                        pe_archive::archive_views(final(archives)@),
                    ),
                ),
                Err(e) => after == Err::<(Seq<ObjectView>, Seq<ArchiveView>), LoadErrorView>(e@)
                    && final(objects)@ == old(objects)@ && final(archives)@ == old(archives)@,
            }
        }),
{
    match input_role(file_kind(data.as_slice())) {
        Err(kind) => Err(LoadError { path, kind }),
        Ok(InputRole::Object) => {
            match parse_input_object(path, data.as_slice()) {
                Err(e) => Err(e),
                Ok(object) => {
                    let ghost before = objects@;
                    objects.push(object);
                    assert(input::object_views(objects@) =~= input::object_views(before).push(
                        object@,
                    ));
                    Ok(())
                },
            }
        },
        Ok(InputRole::Archive) => {
            match parse_archive(path, data) {
                Err(e) => Err(e),
                Ok(archive) => {
                    let ghost before = archives@;
                    archives.push(archive);
                    assert(pe_archive::archive_views(archives@)
                        =~= pe_archive::archive_views(before).push(archive@));
                    Ok(())
                },
            }
        },
    }
}

// ---- all inputs ----

/// An input that was read.
#[derive(Debug)]
pub struct InputFile {
    pub path: String,
    pub data: Vec<u8>,
}

/// Why the inputs could not be loaded.
#[derive(Debug)]
pub enum InputFailure {
    /// An input could not be read, for this reason.
    Read(String),
    /// An input, or a member that it needs, could not be loaded.
    Load(LoadError),
}

/// The objects and archives once the first `n` files have been added.
pub open spec fn with_inputs(files: Seq<InputFile>, n: int) -> Result<
    (Seq<ObjectView>, Seq<ArchiveView>),
    LoadErrorView,
>
    decreases n,
{
    if n <= 0 {
        Ok((Seq::empty(), Seq::empty()))
    } else {
        match with_inputs(files, n - 1) {
            Err(e) => Err(e),
            Ok((objects, archives)) => with_input(
                objects,
                archives,
                files[n - 1].path@,
                files[n - 1].data@,
            ),
        }
    }
}

/// Whether the files are what was read of the first inputs.
pub open spec fn are_read<F: Fn(usize) -> Result<InputFile, String>>(
    files: Seq<InputFile>,
    read_input: F,
) -> bool {
    forall|k: int|
        0 <= k < files.len() ==> call_ensures(
            read_input,
            (k as usize,),
            Ok::<InputFile, String>(#[trigger] files[k]),
        )
}

/// Whether this is what comes of the inputs, if the files are what was read of them: files are read
/// and added one by one, until one cannot be read or added, and once all have been added, the
/// archive members that they need are loaded.
pub open spec fn inputs_end<F: Fn(usize) -> Result<InputFile, String>>(
    num_inputs: usize,
    read_input: F,
    files: Seq<InputFile>,
    r: Result<Vec<InputObject>, InputFailure>,
) -> bool {
    let n = files.len() as int;
    &&& n <= num_inputs
    &&& are_read(files, read_input)
    &&& match with_inputs(files, n) {
        Err(e) => {
            &&& n > 0
            &&& with_inputs(files, n - 1) is Ok
            &&& r matches Err(InputFailure::Load(error))
            &&& error@ == e
        },
        Ok((objects, archives)) => match r {
            Ok(all) => n == num_inputs && pe_archive::loading_ends(
                archives,
                objects,
                Ok(input::object_views(all@)),
            ),
            Err(InputFailure::Load(error)) => n == num_inputs && pe_archive::loading_ends(
                archives,
                objects,
                Err(error@),
            ),
            Err(InputFailure::Read(reason)) => n < num_inputs && call_ensures(
                read_input,
                (n as usize,),
                Err::<InputFile, String>(reason),
            ),
        },
    }
}

/// Reads and loads the inputs, and the archive members that they need.
pub fn load_input_objects<F: Fn(usize) -> Result<InputFile, String>>(
    num_inputs: usize,
    read_input: &F,
) -> (r: Result<Vec<InputObject>, InputFailure>)
    requires
        forall|k: usize| k < num_inputs ==> #[trigger] call_requires(read_input, (k,)),
    ensures
        exists|files: Seq<InputFile>| #[trigger] inputs_end(num_inputs, *read_input, files, r),
{
    let mut objects: Vec<InputObject> = Vec::new();
    let mut archives: Vec<InputArchive> = Vec::new();
    let ghost mut files: Seq<InputFile> = Seq::empty();
    assert(input::object_views(objects@) =~= Seq::<ObjectView>::empty());
    assert(pe_archive::archive_views(archives@) =~= Seq::<ArchiveView>::empty());
    let mut n: usize = 0;
    while n < num_inputs
        invariant
            n <= num_inputs,
            forall|k: usize| k < num_inputs ==> #[trigger] call_requires(read_input, (k,)),
            forall|a: int| 0 <= a < archives@.len() ==> (#[trigger] archives@[a])@.wf(),
            files.len() == n,
            are_read(files, *read_input),
            with_inputs(files, n as int) == Ok::<
                (Seq<ObjectView>, Seq<ArchiveView>),
                LoadErrorView,
            >((input::object_views(objects@), pe_archive::archive_views(archives@))),
        decreases num_inputs - n,
    {
        let outcome = read_input(n);
        match outcome {
            Err(reason) => {
                let r = Err(InputFailure::Read(reason));
                assert(inputs_end(num_inputs, *read_input, files, r));
                return r;
            },
            Ok(file) => {
                let ghost before = files;
                proof {
                    files = files.push(file);
                    lemma_with_inputs(before, files, n as int);
                    assert(before =~= files.take(n as int));
                    assert forall|k: int| 0 <= k < files.len() implies call_ensures(
                        read_input,
                        (k as usize,),
                        Ok::<InputFile, String>(#[trigger] files[k]),
                    ) by {
                        if k < n {
                            assert(before[k] == files[k]);
                        }
                    }
                }
                match add_input(&mut objects, &mut archives, file.path, file.data) {
                    Ok(()) => {},
                    Err(e) => {
                        let r = Err(InputFailure::Load(e));
                        assert(inputs_end(num_inputs, *read_input, files, r));
                        return r;
                    },
                }
            },
        }
        n += 1;
    }
    let r = match load_archive_members(&mut objects, archives.as_slice()) {
        Ok(()) => Ok(objects),
        Err(e) => Err(InputFailure::Load(e)),
    };
    assert(inputs_end(num_inputs, *read_input, files, r));
    r
}

/// What comes of the first files does not depend on the others.
proof fn lemma_with_inputs(files: Seq<InputFile>, more: Seq<InputFile>, n: int)
    requires
        0 <= n <= files.len() <= more.len(),
        forall|k: int| 0 <= k < n ==> files[k] == #[trigger] more[k],
    ensures
        with_inputs(files, n) == with_inputs(more, n),
    decreases n,
{
    if n > 0 {
        lemma_with_inputs(files, more, n - 1);
        let _ = more[n - 1];
    }
}

} // verus!
