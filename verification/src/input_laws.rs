//! Where every input is found, and what becomes of all inputs of a link.
use crate::args::{Input, InputSpec, PeArgs};
use crate::error::LinkError;
use crate::file_name;
use crate::input;
use crate::input::{InputObject, ObjectView};
use crate::pe_archive;
use crate::pe_inputs;
use crate::pe_inputs::{FoundInput, InputFailure, InputFile, PathCandidate};
use crate::pe_link;
use crate::pe_link::{LinkFailure, PeFailure};
use vstd::prelude::*;

verus! {

// ---- where inputs are looked for ----

/// Whether a place is where an input may be: a path may be where it was given, every input below
/// the directory that is searched first, if there is one, and below each of the search directories.
pub open spec fn is_place_for(input: Input, num_dirs: usize, place: PathCandidate) -> bool {
    match place {
        PathCandidate::AsGiven => input.spec is File,
        PathCandidate::SearchFirst => input.has_search_first,
        PathCandidate::SearchDir(k) => k < num_dirs,
    }
}

/// Whether one place is tried before another: the path as it was given first, then the directory
/// that is searched first, then the search directories in their order.
pub open spec fn is_tried_before(a: PathCandidate, b: PathCandidate) -> bool {
    match (a, b) {
        (_, PathCandidate::AsGiven) => false,
        (PathCandidate::AsGiven, _) => true,
        (_, PathCandidate::SearchFirst) => false,
        (PathCandidate::SearchFirst, _) => true,
        (PathCandidate::SearchDir(k), PathCandidate::SearchDir(l)) => k < l,
    }
}

/// The places where an input is looked for are exactly those where it may be, in the order in which
/// they are tried.
pub proof fn inputs_are_looked_for_in_order(input: Input, num_dirs: usize)
    ensures
        ({
            let places = pe_inputs::input_candidates(input, num_dirs);
            &&& forall|place: PathCandidate| #[trigger]
                places.contains(place) <==> is_place_for(input, num_dirs, place)
            &&& forall|k: int, l: int|
                0 <= k < l < places.len() ==> is_tried_before(
                    #[trigger] places[k],
                    #[trigger] places[l],
                )
        }),
        ({
            let places = pe_inputs::search_candidates(input, num_dirs);
            &&& forall|place: PathCandidate| #[trigger]
                places.contains(place) <==> is_place_for(input, num_dirs, place) && !(
                place is AsGiven)
            &&& forall|k: int, l: int|
                0 <= k < l < places.len() ==> is_tried_before(
                    #[trigger] places[k],
                    #[trigger] places[l],
                )
        }),
{
    let rest = pe_inputs::search_candidates(input, num_dirs);
    let places = pe_inputs::input_candidates(input, num_dirs);
    let skipped: int = if input.has_search_first {
        1
    } else {
        0
    };
    assert forall|place: PathCandidate| #[trigger] rest.contains(place) <==> is_place_for(
        input,
        num_dirs,
        place,
    ) && !(place is AsGiven) by {
        if input.has_search_first {
            assert(rest[0] == PathCandidate::SearchFirst);
        }
        if let PathCandidate::SearchDir(k) = place {
            if k < num_dirs {
                assert(rest[skipped + k] == place);
            }
        }
    }
    assert forall|place: PathCandidate| #[trigger] places.contains(place) <==> is_place_for(
        input,
        num_dirs,
        place,
    ) by {
        if input.spec is File {
            assert(places[0] == PathCandidate::AsGiven);
            if rest.contains(place) {
                let k = rest.index_of(place);
                assert(places[k + 1] == place);
            }
            if places.contains(place) && !(place is AsGiven) {
                let k = places.index_of(place);
                assert(rest[k - 1] == place);
            }
        }
        assert(rest.contains(place) <==> is_place_for(input, num_dirs, place) && !(
        place is AsGiven));
    }
    assert forall|k: int, l: int| 0 <= k < l < places.len() implies is_tried_before(
        #[trigger] places[k],
        #[trigger] places[l],
    ) by {
        if input.spec is File {
            assert(places[l] == rest[l - 1]);
            if k > 0 {
                assert(places[k] == rest[k - 1]);
            }
        }
    }
}

/// An input is found at the first place where a file with its name exists: one exists there, and at
/// none of the places that are tried before. Where there is no such place, the input is missing. A
/// library is looked for with the extension `lib`, all others under their own names.
pub proof fn inputs_are_found_at_the_first_place<F: Fn(PathCandidate, &str) -> bool>(
    input: Input,
    num_dirs: usize,
    exists_at: F,
    is_there: spec_fn(PathCandidate, Seq<char>) -> bool,
    r: Result<FoundInput, String>,
)
    requires
        forall|place: PathCandidate, name: &str, answer: bool| #[trigger]
            call_ensures(exists_at, (place, name), answer) ==> answer == is_there(place, name@),
        pe_inputs::is_resolved(input, num_dirs, exists_at, r),
    ensures
        ({
            let name = match r {
                Ok(found) => found.name@,
                Err(missing) => missing@,
            };
            &&& input.spec matches InputSpec::File(path) ==> name == path@
            &&& input.spec matches InputSpec::Search(given) ==> name == given@
            &&& input.spec matches InputSpec::Lib(given) ==> file_name::is_portable(given@) ==> name
                == file_name::extended(given@, "lib"@)
            &&& match r {
                Ok(found) => {
                    &&& is_place_for(input, num_dirs, found.place)
                    &&& is_there(found.place, name)
                    &&& forall|place: PathCandidate|
                        is_place_for(input, num_dirs, place) && #[trigger] is_tried_before(
                            place,
                            found.place,
                        ) ==> !is_there(place, name)
                },
                Err(_) => forall|place: PathCandidate| #[trigger]
                    is_place_for(input, num_dirs, place) ==> !is_there(place, name),
            }
        }),
{
    inputs_are_looked_for_in_order(input, num_dirs);
    let places = pe_inputs::input_candidates(input, num_dirs);
    let wanted: Option<PathCandidate> = match r {
        Ok(found) => Some(found.place),
        Err(_) => None,
    };
    let name = match r {
        Ok(found) => found.name@,
        Err(missing) => missing@,
    };
    let text = choose|text: &str|
        {
            &&& #[trigger] pe_inputs::is_searched_name(input.spec, text@)
            &&& name == text@
            &&& pe_inputs::is_first_found(places, text, exists_at, wanted)
        };
    assert(pe_inputs::is_first_found(places, text, exists_at, wanted));
    match r {
        Ok(found) => {
            let k = choose|k: int|
                {
                    &&& 0 <= k < places.len()
                    &&& #[trigger] places[k] == found.place
                    &&& call_ensures(exists_at, (found.place, text), true)
                    &&& pe_inputs::are_missing(places.take(k), text, exists_at)
                };
            assert(places.contains(found.place));
            assert forall|place: PathCandidate|
                is_place_for(input, num_dirs, place) && #[trigger] is_tried_before(
                    place,
                    found.place,
                ) implies !is_there(place, name) by {
                assert(places.contains(place));
                let l = places.index_of(place);
                if k < l {
                    assert(is_tried_before(places[k], places[l]));
                }
                assert(l < k);
                assert(places.take(k)[l] == place);
                assert(call_ensures(exists_at, (place, text), false));
            }
        },
        Err(_) => {
            assert forall|place: PathCandidate| #[trigger]
                is_place_for(input, num_dirs, place) implies !is_there(place, name) by {
                assert(places.contains(place));
                let l = places.index_of(place);
                assert(places[l] == place);
                assert(call_ensures(exists_at, (place, text), false));
            }
        },
    }
}

// ---- all inputs of a link ----

/// Inputs are read one by one, up to the first that cannot be read or loaded. Where all can be, the
/// objects are those of the inputs, in their order, and behind them the archive members that loading
/// adds.
pub proof fn all_inputs_are_loaded<F: Fn(usize) -> Result<InputFile, String>>(
    num_inputs: usize,
    read_input: F,
    files: Seq<InputFile>,
    r: Result<Vec<InputObject>, InputFailure>,
)
    requires
        pe_inputs::inputs_end(num_inputs, read_input, files, r),
    ensures
        forall|k: int|
            0 <= k < files.len() ==> call_ensures(
                read_input,
                (k as usize,),
                Ok::<InputFile, String>(#[trigger] files[k]),
            ),
        ({
            let added = pe_inputs::with_inputs(files, files.len() as int);
            match r {
                Ok(all) => {
                    &&& files.len() == num_inputs
                    &&& added matches Ok((objects, archives))
                    &&& pe_archive::loading_ends(
                        archives,
                        objects,
                        Ok(input::object_views(all@)),
                    )
                },
                Err(InputFailure::Read(reason)) => {
                    &&& files.len() < num_inputs
                    &&& added is Ok
                    &&& call_ensures(
                        read_input,
                        (files.len() as usize,),
                        Err::<InputFile, String>(reason),
                    )
                },
                Err(InputFailure::Load(error)) => match added {
                    Err(e) => {
                        &&& error@ == e
                        &&& pe_inputs::with_inputs(files, files.len() - 1) is Ok
                    },
                    Ok((objects, archives)) => {
                        &&& files.len() == num_inputs
                        &&& pe_archive::loading_ends(archives, objects, Err(error@))
                    },
                },
            }
        }),
{
}

/// The outcome of a link is that of linking its objects; if the objects cannot be loaded, it is that
/// failure.
pub proof fn links_end_as_their_objects_link(
    args: PeArgs,
    objects: Seq<ObjectView>,
    r: Result<Vec<u8>, LinkFailure>,
    inputs: Result<Vec<InputObject>, InputFailure>,
    outcome: Result<Vec<u8>, PeFailure>,
)
    requires
        pe_link::is_linked(args, objects, r),
        pe_link::is_linked_from(args, inputs, outcome),
    ensures
        match r {
            Ok(output) => pe_link::linked(args, objects) == Ok::<Seq<u8>, LinkError>(output@),
            Err(failure) => pe_link::linked(args, objects) == Err::<Seq<u8>, LinkError>(
                failure.error,
            ),
        },
        match (inputs, outcome) {
            (Err(e), Err(PeFailure::Inputs(error))) => error == e,
            (Err(_), _) => false,
            (Ok(list), Ok(output)) => pe_link::linked(args, input::object_views(list@)) == Ok::<
                Seq<u8>,
                LinkError,
            >(output@),
            (Ok(list), Err(PeFailure::Link(failure))) => pe_link::linked(
                args,
                input::object_views(list@),
            ) == Err::<Seq<u8>, LinkError>(failure.error),
            (Ok(_), Err(PeFailure::Inputs(_))) => false,
        },
{
}

} // verus!
