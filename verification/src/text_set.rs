//! Sets of texts, held by `hashbrown`.
use crate::text;
use hashbrown::HashSet;
use vstd::prelude::*;

verus! {

/// A set of texts, held by a `hashbrown::HashSet`.
#[verifier::external_body]
pub struct TextSet {
    texts: HashSet<String>,
}

/// The texts in a set.
pub uninterp spec fn text_set_contents(set: TextSet) -> Set<Seq<char>>;

/// Returns an empty set, by `HashSet::new`.
#[verifier::external_body]
pub(crate) fn new_text_set() -> (set: TextSet)
    ensures
        text_set_contents(set) == Set::<Seq<char>>::empty(),
{
    TextSet { texts: HashSet::new() }
}

/// Puts a text in a set, by `HashSet::insert`, and returns whether it was not there before.
#[verifier::external_body]
pub(crate) fn insert_text(set: &mut TextSet, text: String) -> (is_new: bool)
    ensures
        text_set_contents(*final(set)) == text_set_contents(*old(set)).insert(text@),
        is_new == !text_set_contents(*old(set)).contains(text@),
{
    set.texts.insert(text)
}

/// Returns the texts of a set, by `HashSet::into_iter`: each of them once. Nothing is said of their
/// order.
#[verifier::external_body]
pub(crate) fn list_texts(set: TextSet) -> (list: Vec<String>)
    ensures
        text::texts(list@).no_duplicates(),
        text::texts(list@).to_set() == text_set_contents(set),
{
    set.texts.into_iter().collect()
}

} // verus!
