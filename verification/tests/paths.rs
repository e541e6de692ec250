use pelink::args::{Input, InputSpec};
use pelink::pe_inputs::{resolve_input_path, search_path, FoundInput, PathCandidate};
use std::cell::RefCell;

fn file(path: &str, has_search_first: bool) -> Input {
    Input { spec: InputSpec::File(path.to_owned()), has_search_first }
}

fn search(name: &str, has_search_first: bool) -> Input {
    Input { spec: InputSpec::Search(name.to_owned()), has_search_first }
}

fn lib(name: &str, has_search_first: bool) -> Input {
    Input { spec: InputSpec::Lib(name.to_owned()), has_search_first }
}

fn found(place: PathCandidate, name: &str) -> Result<FoundInput, String> {
    Ok(FoundInput { place, name: name.to_owned() })
}

fn missing(name: &str) -> Result<FoundInput, String> {
    Err(name.to_owned())
}

#[test]
fn a_path_is_tried_as_it_is_first() {
    let tried = RefCell::new(Vec::new());
    let exists = |candidate: PathCandidate, name: &str| {
        tried.borrow_mut().push((candidate, name.to_owned()));
        candidate == PathCandidate::SearchDir(1)
    };
    assert_eq!(
        resolve_input_path(&file("a.obj", true), 3, &exists),
        found(PathCandidate::SearchDir(1), "a.obj")
    );
    assert_eq!(
        *tried.borrow(),
        vec![
            (PathCandidate::AsGiven, "a.obj".to_owned()),
            (PathCandidate::SearchFirst, "a.obj".to_owned()),
            (PathCandidate::SearchDir(0), "a.obj".to_owned()),
            (PathCandidate::SearchDir(1), "a.obj".to_owned()),
        ]
    );
}

#[test]
fn an_existing_path_is_not_searched_for() {
    let exists = |_: PathCandidate, _: &str| true;
    assert_eq!(
        resolve_input_path(&file("dir/a.obj", true), 3, &exists),
        found(PathCandidate::AsGiven, "dir/a.obj")
    );
    assert_eq!(
        resolve_input_path(&search("a.obj", true), 3, &exists),
        found(PathCandidate::SearchFirst, "a.obj")
    );
    assert_eq!(
        resolve_input_path(&lib("kernel32", false), 3, &exists),
        found(PathCandidate::SearchDir(0), "kernel32.lib")
    );
}

#[test]
fn names_are_only_searched_for() {
    let exists = |candidate: PathCandidate, _: &str| candidate == PathCandidate::AsGiven;
    assert_eq!(resolve_input_path(&search("a.obj", false), 2, &exists), missing("a.obj"));
    assert_eq!(resolve_input_path(&lib("a", true), 2, &exists), missing("a.lib"));
    assert_eq!(search_path("a.obj", &file("a.obj", true), 2, &exists), None);
    assert_eq!(
        resolve_input_path(&file("a.obj", false), 0, &exists),
        found(PathCandidate::AsGiven, "a.obj")
    );
}

#[test]
fn the_last_directory_is_tried_too() {
    let exists = |candidate: PathCandidate, _: &str| candidate == PathCandidate::SearchDir(4);
    let input = search("a.obj", true);
    assert_eq!(search_path("a.obj", &input, 5, &exists), Some(PathCandidate::SearchDir(4)));
    assert_eq!(search_path("a.obj", &input, 4, &exists), None);
}

#[test]
fn libraries_are_found_as_files() {
    let exists = |candidate: PathCandidate, name: &str| {
        candidate == PathCandidate::SearchDir(1) && name == "user32.lib"
    };
    for name in ["user32", "user32.a", "user32.lib", "user32."] {
        assert_eq!(
            resolve_input_path(&lib(name, true), 2, &exists),
            resolve_input_path(&search("user32.lib", true), 2, &exists)
        );
        assert_eq!(
            resolve_input_path(&lib(name, true), 2, &exists),
            found(PathCandidate::SearchDir(1), "user32.lib")
        );
    }
    // A file name is not given an extension.
    assert_eq!(resolve_input_path(&search("user32", true), 2, &exists), missing("user32"));
}

#[test]
fn only_the_last_extension_is_replaced() {
    let looked_for = |name: &str| {
        let exists = |_: PathCandidate, _: &str| true;
        resolve_input_path(&lib(name, false), 1, &exists).unwrap().name
    };
    assert_eq!(looked_for("a.b.c"), "a.b.lib");
    assert_eq!(looked_for("sub.dir/a"), "sub.dir/a.lib");
    assert_eq!(looked_for("/sub/a.dll"), "/sub/a.lib");
    assert_eq!(looked_for(".hidden"), ".hidden.lib");
    assert_eq!(looked_for("..."), "...lib");
    // These have no file name.
    assert_eq!(looked_for(""), "");
    assert_eq!(looked_for(".."), "..");
    assert_eq!(looked_for("a/.."), "a/..");
}

#[test]
fn the_missing_places_are_not_asked_for() {
    let exists = |candidate: PathCandidate, _: &str| match candidate {
        PathCandidate::SearchDir(number) => ["x", "y"][number] == "none",
        PathCandidate::AsGiven | PathCandidate::SearchFirst => panic!("no such place"),
    };
    assert_eq!(resolve_input_path(&lib("a", false), 2, &exists), missing("a.lib"));
    assert_eq!(resolve_input_path(&search("a", false), 2, &exists), missing("a"));
}
