//! What holds of every comparison of images.
use crate::pe;
use crate::pe_diff;
use crate::pe_diff::{Aspect, FactsFailure, FactsView};
use crate::pe_file;
use crate::pe_file::{PeHeader, PeSectionView, RelocationBlockView};
use crate::report;
use crate::report::DiffView;
use crate::text;
use vstd::multiset::Multiset;
use vstd::prelude::*;
use vstd::seq_lib;

verus! {

/// Whether the first image agrees with any other on an aspect.
pub open spec fn agrees(facts: Seq<FactsView>, aspect: Aspect) -> bool {
    exists|k: int|
        1 <= k < facts.len() && pe_diff::aspect_text(#[trigger] facts[k], aspect)
            == pe_diff::aspect_text(facts[0], aspect)
}

/// The first value recurs exactly if the first image agrees with another.
proof fn lemma_agrees(facts: Seq<FactsView>, aspect: Aspect)
    ensures
        facts.len() > 0 ==> report::first_recurs(pe_diff::aspect_texts(facts, aspect)) == agrees(
            facts,
            aspect,
        ),
{
    let values = pe_diff::aspect_texts(facts, aspect);
    if facts.len() > 0 {
        if agrees(facts, aspect) {
            let k = choose|k: int|
                1 <= k < facts.len() && pe_diff::aspect_text(#[trigger] facts[k], aspect)
                    == pe_diff::aspect_text(facts[0], aspect);
            assert(values[k] == values[0]);
        }
        if report::first_recurs(values) {
            let k = choose|k: int| 1 <= k < values.len() && #[trigger] values[k] == values[0];
            assert(pe_diff::aspect_text(facts[k], aspect) == pe_diff::aspect_text(
                facts[0],
                aspect,
            ));
        }
    }
}

/// The difference that is reported for an aspect.
pub open spec fn difference(facts: Seq<FactsView>, aspect: Aspect) -> DiffView {
    DiffView {
        key: pe_diff::aspect_key(aspect),
        values: pe_diff::aspect_texts(facts, aspect),
    }
}

/// A report holds a difference for exactly those aspects on which the first image agrees with no
/// other, in the order of the aspects: it is the list of aspects without the others.
pub proof fn reports_hold_what_differs(facts: Seq<FactsView>, n: int)
    requires
        facts.len() > 0,
        0 <= n <= pe_diff::aspects().len(),
    ensures
        pe_diff::compared(facts, n) == pe_diff::aspects().take(n).filter(
            |aspect: Aspect| !agrees(facts, aspect),
        ).map_values(|aspect: Aspect| difference(facts, aspect)),
    decreases n,
{
    reveal(Seq::filter);
    let differs = |aspect: Aspect| !agrees(facts, aspect);
    let describe = |aspect: Aspect| difference(facts, aspect);
    if n > 0 {
        reports_hold_what_differs(facts, n - 1);
        let aspect = pe_diff::aspects()[n - 1];
        lemma_agrees(facts, aspect);
        let all = pe_diff::aspects().take(n);
        assert(all.drop_last() =~= pe_diff::aspects().take(n - 1));
        assert(all.last() == aspect);
        let before = pe_diff::aspects().take(n - 1).filter(differs);
        if agrees(facts, aspect) {
            assert(all.filter(differs) =~= before);
        } else {
            assert(all.filter(differs) =~= before.push(aspect));
            assert(before.push(aspect).map_values(describe) =~= before.map_values(describe).push(
                difference(facts, aspect),
            ));
        }
    } else {
        assert(pe_diff::aspects().take(0).filter(differs).map_values(describe)
            =~= Seq::<DiffView>::empty());
    }
}

/// The differences for which the answers are those of a property of their keys are the ones whose
/// key has it.
proof fn lemma_kept_filters(
    diffs: Seq<DiffView>,
    answers: Seq<bool>,
    keep: spec_fn(Seq<char>) -> bool,
    n: int,
)
    requires
        0 <= n <= diffs.len(),
        n <= answers.len(),
        forall|k: int| 0 <= k < n ==> #[trigger] answers[k] == keep(diffs[k].key),
    ensures
        report::kept(diffs, answers, n) == diffs.take(n).filter(|diff: DiffView| keep(diff.key)),
    decreases n,
{
    reveal(Seq::filter);
    let has_kept_key = |diff: DiffView| keep(diff.key);
    if n > 0 {
        lemma_kept_filters(diffs, answers, keep, n - 1);
        let all = diffs.take(n);
        assert(all.drop_last() =~= diffs.take(n - 1));
        assert(answers[n - 1] == has_kept_key(all.last()));
        let before = diffs.take(n - 1).filter(has_kept_key);
        if answers[n - 1] {
            assert(all.filter(has_kept_key) =~= before.push(all.last()));
        } else {
            assert(all.filter(has_kept_key) =~= before);
        }
    } else {
        assert(diffs.take(0).filter(has_kept_key) =~= Seq::<DiffView>::empty());
    }
}

/// Where the function answers by a property of the keys, the report that is left holds exactly the
/// differences whose key has that property, in their order.
pub proof fn differences_are_kept_by_key<K: Fn(&str) -> bool>(
    keeps: K,
    keep: spec_fn(Seq<char>) -> bool,
    diffs: Seq<DiffView>,
    part: Seq<DiffView>,
)
    requires
        forall|key: &str, answer: bool| #[trigger]
            call_ensures(keeps, (key,), answer) ==> answer == keep(key@),
        report::is_kept_part(keeps, diffs, part),
    ensures
        part == diffs.filter(|diff: DiffView| keep(diff.key)),
{
    let answers = choose|answers: Seq<bool>| #[trigger]
        report::are_answers(keeps, diffs, answers) && part == report::kept(
            diffs,
            answers,
            diffs.len() as int,
        );
    assert forall|k: int| 0 <= k < diffs.len() implies #[trigger] answers[k] == keep(
        diffs[k].key,
    ) by {
        assert(report::is_answer(keeps, diffs[k].key, answers[k]));
    }
    lemma_kept_filters(diffs, answers, keep, diffs.len() as int);
    assert(diffs.take(diffs.len() as int) =~= diffs);
}

/// Of the differences between images, those are kept whose aspect has a key that is.
proof fn lemma_kept_aspects(facts: Seq<FactsView>, keep: spec_fn(Seq<char>) -> bool, n: int)
    requires
        facts.len() > 0,
        0 <= n <= pe_diff::aspects().len(),
    ensures
        pe_diff::compared(facts, n).filter(|diff: DiffView| keep(diff.key))
            == pe_diff::aspects().take(n).filter(
            |aspect: Aspect| !agrees(facts, aspect) && keep(pe_diff::aspect_key(aspect)),
        ).map_values(|aspect: Aspect| difference(facts, aspect)),
    decreases n,
{
    reveal(Seq::filter);
    let has_kept_key = |diff: DiffView| keep(diff.key);
    let counts = |aspect: Aspect| !agrees(facts, aspect) && keep(pe_diff::aspect_key(aspect));
    let describe = |aspect: Aspect| difference(facts, aspect);
    if n > 0 {
        lemma_kept_aspects(facts, keep, n - 1);
        let aspect = pe_diff::aspects()[n - 1];
        lemma_agrees(facts, aspect);
        let all = pe_diff::aspects().take(n);
        assert(all.drop_last() =~= pe_diff::aspects().take(n - 1));
        assert(all.last() == aspect);
        let before = pe_diff::aspects().take(n - 1).filter(counts);
        let old_report = pe_diff::compared(facts, n - 1);
        let report = pe_diff::compared(facts, n);
        if agrees(facts, aspect) {
            assert(all.filter(counts) =~= before);
        } else {
            assert(report == old_report.push(difference(facts, aspect)));
            assert(report.drop_last() =~= old_report);
            if keep(pe_diff::aspect_key(aspect)) {
                assert(all.filter(counts) =~= before.push(aspect));
                assert(report.filter(has_kept_key) =~= old_report.filter(has_kept_key).push(
                    difference(facts, aspect),
                ));
                assert(before.push(aspect).map_values(describe) =~= before.map_values(
                    describe,
                ).push(difference(facts, aspect)));
            } else {
                assert(all.filter(counts) =~= before);
                assert(report.filter(has_kept_key) =~= old_report.filter(has_kept_key));
            }
        }
    } else {
        assert(pe_diff::compared(facts, 0).filter(has_kept_key) =~= Seq::<DiffView>::empty());
        assert(pe_diff::aspects().take(0).filter(counts).map_values(describe) =~= Seq::<
            DiffView,
        >::empty());
    }
}

/// The report that is left of a comparison of images holds a difference for exactly those aspects
/// on which the first image agrees with no other and whose key is kept, in the order of the
/// aspects.
pub proof fn reports_hold_what_differs_and_is_kept<K: Fn(&str) -> bool>(
    facts: Seq<FactsView>,
    keeps: K,
    keep: spec_fn(Seq<char>) -> bool,
    part: Seq<DiffView>,
)
    requires
        facts.len() > 0,
        forall|key: &str, answer: bool| #[trigger]
            call_ensures(keeps, (key,), answer) ==> answer == keep(key@),
        report::is_kept_part(
            keeps,
            pe_diff::compared(facts, pe_diff::aspects().len() as int),
            part,
        ),
    ensures
        part == pe_diff::aspects().filter(
            |aspect: Aspect| !agrees(facts, aspect) && keep(pe_diff::aspect_key(aspect)),
        ).map_values(|aspect: Aspect| difference(facts, aspect)),
        forall|k: int| 0 <= k < part.len() ==> keep((#[trigger] part[k]).key),
{
    let n = pe_diff::aspects().len() as int;
    let all = pe_diff::compared(facts, n);
    differences_are_kept_by_key(keeps, keep, all, part);
    lemma_kept_aspects(facts, keep, n);
    assert(pe_diff::aspects().take(n) =~= pe_diff::aspects());
    assert forall|k: int| 0 <= k < part.len() implies keep((#[trigger] part[k]).key) by {
        all.lemma_filter_pred(|diff: DiffView| keep(diff.key), k);
    }
}

/// Where the first image is compared with one that has the same facts, nothing is reported.
pub proof fn equal_facts_give_no_differences(facts: Seq<FactsView>, k: int, n: int)
    requires
        1 <= k < facts.len(),
        facts[k] == facts[0],
        0 <= n <= pe_diff::aspects().len(),
    ensures
        pe_diff::compared(facts, n).len() == 0,
    decreases n,
{
    if n > 0 {
        equal_facts_give_no_differences(facts, k, n - 1);
        let aspect = pe_diff::aspects()[n - 1];
        lemma_agrees(facts, aspect);
        assert(pe_diff::aspect_text(facts[k], aspect) == pe_diff::aspect_text(facts[0], aspect));
    }
}

/// The facts of several files are the facts of each of them.
pub proof fn lemma_all_facts(files: Seq<Seq<u8>>, n: int, k: int)
    requires
        0 <= k < n <= files.len(),
        pe_diff::all_facts(files, n) is Ok,
    ensures
        pe_diff::all_facts(files, n)->Ok_0.len() == n,
        pe_diff::facts_of(files[k]) == Ok::<FactsView, FactsFailure>(
            pe_diff::all_facts(files, n)->Ok_0[k],
        ),
    decreases n,
{
    if k < n - 1 {
        lemma_all_facts(files, n - 1, k);
    } else if n > 1 {
        lemma_all_facts(files, n - 1, 0);
    }
}

/// Where the first file is compared with one that has the same facts, nothing is reported.
pub proof fn images_with_equal_facts_do_not_differ(files: Seq<Seq<u8>>, k: int)
    requires
        1 <= k < files.len(),
        pe_diff::facts_of(files[k]) == pe_diff::facts_of(files[0]),
        pe_diff::report_of(false, files) is Ok,
    ensures
        pe_diff::report_of(false, files)->Ok_0.len() == 0,
{
    let n = files.len() as int;
    lemma_all_facts(files, n, 0);
    lemma_all_facts(files, n, k);
    equal_facts_give_no_differences(
        pe_diff::all_facts(files, n)->Ok_0,
        k,
        pe_diff::aspects().len() as int,
    );
}

/// Where the first file is compared with an equal one, nothing is reported.
pub proof fn equal_files_do_not_differ(files: Seq<Seq<u8>>, k: int)
    requires
        1 <= k < files.len(),
        files[k] == files[0],
        pe_diff::report_of(false, files) is Ok,
    ensures
        pe_diff::report_of(false, files)->Ok_0.len() == 0,
{
    images_with_equal_facts_do_not_differ(files, k);
}

/// The keys under which differences are reported.
pub open spec fn keys(report: Seq<DiffView>) -> Seq<Seq<char>> {
    report.map_values(|diff: DiffView| diff.key)
}

/// Which of two images comes first does not matter for what is reported, only for the order of the
/// values.
pub proof fn two_images_differ_both_ways(a: FactsView, b: FactsView, n: int)
    requires
        0 <= n <= pe_diff::aspects().len(),
    ensures
        keys(pe_diff::compared(seq![a, b], n)) == keys(pe_diff::compared(seq![b, a], n)),
    decreases n,
{
    if n > 0 {
        two_images_differ_both_ways(a, b, n - 1);
        let aspect = pe_diff::aspects()[n - 1];
        lemma_agrees(seq![a, b], aspect);
        lemma_agrees(seq![b, a], aspect);
        assert(agrees(seq![a, b], aspect) == agrees(seq![b, a], aspect)) by {
            assert(seq![a, b][1] == b);
            assert(seq![b, a][1] == a);
        }
        lemma_keys(pe_diff::compared(seq![a, b], n - 1), difference(seq![a, b], aspect));
        lemma_keys(pe_diff::compared(seq![b, a], n - 1), difference(seq![b, a], aspect));
    } else {
        assert(keys(pe_diff::compared(seq![a, b], n)) =~= keys(pe_diff::compared(seq![b, a], n)));
    }
}

/// One more difference is one more key.
proof fn lemma_keys(report: Seq<DiffView>, diff: DiffView)
    ensures
        keys(report.push(diff)) == keys(report).push(diff.key),
{
    assert(keys(report.push(diff)) =~= keys(report).push(diff.key));
}

/// Of data directories only counts whether they say where something is, not where that is.
pub proof fn directory_places_do_not_matter(
    a: Seq<Option<(u32, u32)>>,
    b: Seq<Option<(u32, u32)>>,
    n: int,
)
    requires
        0 <= n <= a.len(),
        n <= b.len(),
        forall|k: int|
            0 <= k < n ==> pe_diff::is_present(#[trigger] a[k]) == pe_diff::is_present(b[k]),
    ensures
        pe_diff::directory_list(a, n) == pe_diff::directory_list(b, n),
    decreases n,
{
    if n > 0 {
        directory_places_do_not_matter(a, b, n - 1);
        let _ = a[n - 1];
    }
}

/// The texts of sections, each as often as it occurs.
pub open spec fn section_texts(sections: Seq<PeSectionView>) -> Multiset<Seq<char>> {
    Seq::new(sections.len(), |k: int| pe_diff::section_text(sections[k])).to_multiset()
}

/// Sections are compared as a collection: only which texts there are counts, and how often, not
/// where they stand.
pub proof fn section_order_does_not_matter(a: Seq<PeSectionView>, b: Seq<PeSectionView>)
    requires
        section_texts(a) == section_texts(b),
    ensures
        pe_diff::section_list(a) == pe_diff::section_list(b),
{
    let leq = |x: Seq<char>, y: Seq<char>| text::text_le(x, y);
    text::texts_are_ordered();
    let first = Seq::new(a.len(), |k: int| pe_diff::section_text(a[k]));
    let second = Seq::new(b.len(), |k: int| pe_diff::section_text(b[k]));
    first.lemma_sort_by_ensures(leq);
    second.lemma_sort_by_ensures(leq);
    seq_lib::lemma_sorted_unique(text::sorted_texts(first), text::sorted_texts(second), leq);
}

/// The texts of imports.
pub open spec fn import_texts(imports: Seq<(Seq<u8>, Seq<u8>)>) -> Set<Seq<char>> {
    Seq::new(imports.len(), |k: int| pe_diff::import_text(imports[k])).to_set()
}

/// The distinct imports are the imports.
proof fn lemma_distinct_imports_set(imports: Seq<(Seq<u8>, Seq<u8>)>, n: int, entry: Seq<char>)
    requires
        0 <= n <= imports.len(),
    ensures
        pe_diff::distinct_imports(imports, n).contains(entry) <==> exists|k: int|
            0 <= k < n && #[trigger] pe_diff::import_text(imports[k]) == entry,
    decreases n,
{
    if n > 0 {
        lemma_distinct_imports_set(imports, n - 1, entry);
        let before = pe_diff::distinct_imports(imports, n - 1);
        let own = pe_diff::import_text(imports[n - 1]);
        let after = pe_diff::distinct_imports(imports, n);
        if !before.contains(own) {
            assert(after == before.push(own));
            if entry == own {
                assert(after[before.len() as int] == entry);
            } else if before.contains(entry) {
                let k = before.index_of(entry);
                assert(after[k] == entry);
            } else if after.contains(entry) {
                let k = after.index_of(entry);
                assert(before[k] == entry);
            }
        }
    }
}

/// The list of imports holds the texts of the imports.
pub proof fn import_lists_hold_their_texts(imports: Seq<(Seq<u8>, Seq<u8>)>)
    ensures
        pe_diff::import_list(imports).to_set() == import_texts(imports),
{
    broadcast use vstd::seq_lib::group_to_multiset_ensures;

    let leq = |x: Seq<char>, y: Seq<char>| text::text_le(x, y);
    text::texts_are_ordered();
    let list = pe_diff::distinct_imports(imports, imports.len() as int);
    let sorted = pe_diff::import_list(imports);
    list.lemma_sort_by_ensures(leq);
    lemma_import_set(imports);
    assert forall|entry: Seq<char>| #[trigger] sorted.to_set().contains(entry)
        == list.to_set().contains(entry) by {
        assert(sorted.contains(entry) <==> sorted.to_multiset().count(entry) > 0);
        assert(list.contains(entry) <==> list.to_multiset().count(entry) > 0);
    }
    assert(sorted.to_set() =~= list.to_set());
}

/// Imports are compared as a set: neither their order nor how often they occur counts.
pub proof fn import_order_does_not_matter(
    a: Seq<(Seq<u8>, Seq<u8>)>,
    b: Seq<(Seq<u8>, Seq<u8>)>,
)
    requires
        import_texts(a) == import_texts(b),
    ensures
        pe_diff::import_list(a) == pe_diff::import_list(b),
{
    let first = pe_diff::distinct_imports(a, a.len() as int);
    let second = pe_diff::distinct_imports(b, b.len() as int);
    lemma_import_set(a);
    lemma_import_set(b);
    pe_diff::lemma_distinct_imports(a, a.len() as int);
    pe_diff::lemma_distinct_imports(b, b.len() as int);
    pe_diff::lemma_same_texts_sort_alike(first, second);
}

/// The distinct imports are the imports.
proof fn lemma_import_set(imports: Seq<(Seq<u8>, Seq<u8>)>)
    ensures
        pe_diff::distinct_imports(imports, imports.len() as int).to_set() == import_texts(imports),
{
    let list = pe_diff::distinct_imports(imports, imports.len() as int);
    let all = Seq::new(imports.len(), |k: int| pe_diff::import_text(imports[k]));
    assert forall|entry: Seq<char>| #[trigger] list.to_set().contains(entry) == import_texts(
        imports,
    ).contains(entry) by {
        lemma_distinct_imports_set(imports, imports.len() as int, entry);
        assert(list.to_set().contains(entry) <==> list.contains(entry));
        assert(all.to_set().contains(entry) <==> all.contains(entry));
        if list.contains(entry) {
            let k = choose|k: int|
                0 <= k < imports.len() && #[trigger] pe_diff::import_text(imports[k]) == entry;
            assert(all[k] == entry);
        }
        if all.contains(entry) {
            let k = all.index_of(entry);
            assert(pe_diff::import_text(imports[k]) == entry);
        }
    }
    assert(list.to_set() =~= import_texts(imports));
}

/// Whether each number of a list is below the next ones.
pub open spec fn is_rising(list: Seq<u32>) -> bool {
    forall|i: int, j: int| 0 <= i < j < list.len() ==> #[trigger] list[i] < #[trigger] list[j]
}

/// The place of a number in a rising list is behind all smaller ones.
proof fn lemma_place_of(list: Seq<u32>, value: u32, k: int)
    requires
        is_rising(list),
        0 <= k <= list.len(),
        forall|i: int| 0 <= i < k ==> #[trigger] list[i] < value,
    ensures
        k <= pe_diff::place_of(list, value, k) <= list.len(),
        forall|i: int| 0 <= i < pe_diff::place_of(list, value, k) ==> #[trigger] list[i] < value,
        forall|i: int|
            pe_diff::place_of(list, value, k) <= i < list.len() ==> value <= #[trigger] list[i],
    decreases list.len() - k,
{
    if k < list.len() && list[k] < value {
        lemma_place_of(list, value, k + 1);
    }
}

/// A number that is put in its place keeps a rising list rising, and is in it afterwards together
/// with all others.
pub proof fn inserted_lists_rise(list: Seq<u32>, value: u32)
    requires
        is_rising(list),
    ensures
        is_rising(pe_diff::inserted(list, value)),
        forall|other: u32| #[trigger]
            pe_diff::inserted(list, value).contains(other) <==> other == value || list.contains(
                other,
            ),
{
    lemma_place_of(list, value, 0);
    let k = pe_diff::place_of(list, value, 0);
    let after = pe_diff::inserted(list, value);
    if k < list.len() && list[k] == value {
    } else {
        assert(after == list.insert(k, value));
        assert(after[k] == value);
        assert forall|other: u32| #[trigger] after.contains(other) <==> other == value
            || list.contains(other) by {
            if list.contains(other) {
                let i = list.index_of(other);
                if i < k {
                    assert(after[i] == other);
                } else {
                    assert(after[i + 1] == other);
                }
            }
            if after.contains(other) && other != value {
                let i = after.index_of(other);
                if i < k {
                    assert(list[i] == other);
                } else {
                    assert(list[i - 1] == other);
                }
            }
        }
        assert forall|i: int, j: int| 0 <= i < j < after.len() implies #[trigger] after[i]
            < #[trigger] after[j] by {
            if i < k {
                assert(after[i] == list[i]);
            } else if i > k {
                assert(after[i] == list[i - 1]);
            }
            if j < k {
                assert(after[j] == list[j]);
            } else if j > k {
                assert(after[j] == list[j - 1]);
            }
        }
    }
}

/// The pages that are counted are those of the blocks, each once.
pub proof fn pages_are_counted_once(blocks: Seq<RelocationBlockView>, n: int)
    requires
        0 <= n <= blocks.len(),
    ensures
        is_rising(pe_diff::page_list(blocks, n)),
        forall|page: u32| #[trigger]
            pe_diff::page_list(blocks, n).contains(page) <==> exists|k: int|
                0 <= k < n && (#[trigger] blocks[k]).page == page,
    decreases n,
{
    if n > 0 {
        pages_are_counted_once(blocks, n - 1);
        let before = pe_diff::page_list(blocks, n - 1);
        inserted_lists_rise(before, blocks[n - 1].page);
        assert forall|page: u32| #[trigger]
            pe_diff::page_list(blocks, n).contains(page) <==> exists|k: int|
                0 <= k < n && (#[trigger] blocks[k]).page == page by {
            assert(pe_diff::page_list(blocks, n).contains(page) <==> page == blocks[n - 1].page
                || before.contains(page));
        }
    }
}

/// The types that are listed rise, and none of them is that of padding.
pub proof fn types_are_listed_once(blocks: Seq<RelocationBlockView>, n: int)
    requires
        0 <= n <= blocks.len(),
    ensures
        is_rising(pe_diff::type_list(blocks, n)),
        forall|typ: u32| #[trigger]
            pe_diff::type_list(blocks, n).contains(typ) <==> exists|k: int, m: int|
                #[trigger] has_type(blocks, k, m, typ) && k < n,
    decreases n,
{
    if n > 0 {
        types_are_listed_once(blocks, n - 1);
        let before = pe_diff::type_list(blocks, n - 1);
        let types = blocks[n - 1].types;
        lemma_with_types(before, types, types.len() as int);
        assert forall|typ: u32| #[trigger]
            pe_diff::type_list(blocks, n).contains(typ) <==> exists|k: int, m: int|
                #[trigger] has_type(blocks, k, m, typ) && k < n by {
            let after = pe_diff::type_list(blocks, n);
            assert(after.contains(typ) <==> before.contains(typ) || exists|m: int|
                0 <= m < types.len() && #[trigger] types[m] == typ && typ
                    != pe::IMAGE_REL_BASED_ABSOLUTE);
            if exists|m: int|
                0 <= m < types.len() && #[trigger] types[m] == typ && typ
                    != pe::IMAGE_REL_BASED_ABSOLUTE {
                let m = choose|m: int|
                    0 <= m < types.len() && #[trigger] types[m] == typ && typ
                        != pe::IMAGE_REL_BASED_ABSOLUTE;
                assert(has_type(blocks, n - 1, m, typ));
            }
            if exists|k: int, m: int| #[trigger] has_type(blocks, k, m, typ) && k < n {
                let (k, m) = choose|k: int, m: int|
                    #[trigger] has_type(blocks, k, m, typ) && k < n;
                if k == n - 1 {
                    assert(types[m] == typ);
                } else {
                    assert(has_type(blocks, k, m, typ) && k < n - 1);
                }
            }
        }
    }
}

/// Whether entry `m` of block `k` has the type, and is more than padding.
pub open spec fn has_type(blocks: Seq<RelocationBlockView>, k: int, m: int, typ: u32) -> bool {
    &&& 0 <= k < blocks.len()
    &&& 0 <= m < blocks[k].types.len()
    &&& blocks[k].types[m] == typ
    &&& typ != pe::IMAGE_REL_BASED_ABSOLUTE
}

/// Added types keep a rising list rising.
proof fn lemma_with_types(list: Seq<u32>, types: Seq<u16>, m: int)
    requires
        is_rising(list),
        0 <= m <= types.len(),
    ensures
        is_rising(pe_diff::with_types(list, types, m)),
        forall|typ: u32| #[trigger]
            pe_diff::with_types(list, types, m).contains(typ) <==> list.contains(typ) || exists|
                l: int,
            |
                0 <= l < m && #[trigger] types[l] == typ && typ != pe::IMAGE_REL_BASED_ABSOLUTE,
    decreases m,
{
    if m > 0 {
        lemma_with_types(list, types, m - 1);
        let before = pe_diff::with_types(list, types, m - 1);
        let own = types[m - 1];
        if own != pe::IMAGE_REL_BASED_ABSOLUTE {
            inserted_lists_rise(before, own as u32);
        }
        let after = pe_diff::with_types(list, types, m);
        assert forall|typ: u32| #[trigger] after.contains(typ) <==> list.contains(typ) || exists|
            l: int,
        |
            0 <= l < m && #[trigger] types[l] == typ && typ != pe::IMAGE_REL_BASED_ABSOLUTE by {
            assert(after.contains(typ) <==> before.contains(typ) || (own
                != pe::IMAGE_REL_BASED_ABSOLUTE && typ == own));
        }
    }
}

// ---- flags ----

/// Whether a text holds no bar.
pub open spec fn is_plain(text: Seq<char>) -> bool {
    forall|i: int| 0 <= i < text.len() ==> #[trigger] text[i] != '|'
}

/// Texts without bars can be told from what they are joined to by bars.
pub proof fn lemma_joined_tell_apart(a: Seq<Seq<char>>, n: int, b: Seq<Seq<char>>, m: int)
    requires
        1 <= n <= a.len(),
        1 <= m <= b.len(),
        forall|k: int| 0 <= k < n ==> is_plain(#[trigger] a[k]),
        forall|k: int| 0 <= k < m ==> is_plain(#[trigger] b[k]),
        text::joined(a, seq!['|'], n) == text::joined(b, seq!['|'], m),
    ensures
        n == m,
        forall|k: int| 0 <= k < n ==> #[trigger] a[k] == b[k],
    decreases n,
{
    let bar = seq!['|'];
    let all = text::joined(a, bar, n);
    let x = a[n - 1];
    let y = b[m - 1];
    assert(is_plain(x) && is_plain(y));
    if n > 1 && m > 1 {
        let p = text::joined(a, bar, n - 1);
        let q = text::joined(b, bar, m - 1);
        assert(all == p + bar + x);
        assert(all == q + bar + y);
        assert(all[p.len() as int] == '|');
        assert(all[q.len() as int] == '|');
        if x.len() < y.len() {
            assert(all[p.len() as int] == y[p.len() - q.len() - 1]);
        } else if y.len() < x.len() {
            assert(all[q.len() as int] == x[q.len() - p.len() - 1]);
        }
        assert(p =~= all.take(p.len() as int));
        assert(q =~= all.take(p.len() as int));
        assert(x =~= all.skip(p.len() as int + 1));
        assert(y =~= all.skip(p.len() as int + 1));
        lemma_joined_tell_apart(a, n - 1, b, m - 1);
    } else if n > 1 {
        let p = text::joined(a, bar, n - 1);
        assert(all == p + bar + x);
        assert(y[p.len() as int] == '|');
    } else if m > 1 {
        let q = text::joined(b, bar, m - 1);
        assert(all == q + bar + y);
        assert(x[q.len() as int] == '|');
    }
}

/// The names of those of the first `n` flags that are set.
spec fn set_names(flags: Seq<bool>, names: Seq<Seq<char>>, n: int) -> Seq<Seq<char>>
    decreases n,
{
    if n <= 0 {
        Seq::empty()
    } else {
        set_names(flags, names, n - 1) + text::label_if(flags[n - 1], names[n - 1])
    }
}

/// Whether names can serve as labels: they hold no bar, are not `none`, and no two of them begin
/// with the same character.
spec fn are_labels(names: Seq<Seq<char>>) -> bool {
    &&& forall|k: int|
        0 <= k < names.len() ==> is_plain(#[trigger] names[k]) && names[k].len() > 0 && names[k][0]
            != 'n'
    &&& forall|k: int, l: int|
        0 <= k < l < names.len() ==> (#[trigger] names[k])[0] != (#[trigger] names[l])[0]
}

/// The names of flags that are set are names of flags.
proof fn lemma_set_names(flags: Seq<bool>, names: Seq<Seq<char>>, n: int)
    requires
        0 <= n <= names.len(),
    ensures
        forall|i: int|
            0 <= i < set_names(flags, names, n).len() ==> exists|k: int|
                0 <= k < n && #[trigger] names[k] == #[trigger] set_names(flags, names, n)[i],
    decreases n,
{
    if n > 0 {
        lemma_set_names(flags, names, n - 1);
        let before = set_names(flags, names, n - 1);
        let after = set_names(flags, names, n);
        assert forall|i: int| 0 <= i < after.len() implies exists|k: int|
            0 <= k < n && #[trigger] names[k] == #[trigger] after[i] by {
            if i < before.len() {
                assert(after[i] == before[i]);
                let k = choose|k: int| 0 <= k < n - 1 && #[trigger] names[k] == before[i];
                assert(names[k] == after[i]);
            } else {
                assert(after[i] == names[n - 1]);
            }
        }
    }
}

/// The flags can be told from the names of those that are set.
proof fn lemma_set_names_tell_apart(
    f: Seq<bool>,
    g: Seq<bool>,
    names: Seq<Seq<char>>,
    n: int,
)
    requires
        0 <= n <= names.len(),
        are_labels(names),
        set_names(f, names, n) == set_names(g, names, n),
    ensures
        forall|k: int| 0 <= k < n ==> f[k] == #[trigger] g[k],
    decreases n,
{
    if n > 0 {
        let a = set_names(f, names, n - 1);
        let b = set_names(g, names, n - 1);
        lemma_set_names(f, names, n - 1);
        lemma_set_names(g, names, n - 1);
        let last = names[n - 1];
        let all = set_names(f, names, n);
        if f[n - 1] && !g[n - 1] {
            assert(all == a.push(last));
            assert(all == b);
            assert(b[a.len() as int] == last);
            let k = choose|k: int| 0 <= k < n - 1 && #[trigger] names[k] == b[a.len() as int];
            assert(names[k][0] != names[n - 1][0]);
        } else if !f[n - 1] && g[n - 1] {
            assert(all == b.push(last));
            assert(all == a);
            assert(a[b.len() as int] == last);
            let k = choose|k: int| 0 <= k < n - 1 && #[trigger] names[k] == a[b.len() as int];
            assert(names[k][0] != names[n - 1][0]);
        } else if f[n - 1] {
            assert(a =~= all.drop_last());
            assert(b =~= all.drop_last());
        } else {
            assert(a =~= all);
            assert(b =~= all);
        }
        lemma_set_names_tell_apart(f, g, names, n - 1);
    }
}

/// The flags can be told from their text.
proof fn lemma_labelled_tell_apart(f: Seq<bool>, g: Seq<bool>, names: Seq<Seq<char>>)
    requires
        are_labels(names),
        f.len() == names.len(),
        g.len() == names.len(),
        text::labelled(set_names(f, names, names.len() as int)) == text::labelled(
            set_names(g, names, names.len() as int),
        ),
    ensures
        f == g,
{
    let n = names.len() as int;
    let a = set_names(f, names, n);
    let b = set_names(g, names, n);
    lemma_set_names(f, names, n);
    lemma_set_names(g, names, n);
    reveal_strlit("none");
    reveal_strlit("|");
    assert("|"@ =~= seq!['|']);
    let none = seq!["none"@];
    assert(is_plain(none[0]));
    assert(text::joined(none, seq!['|'], 1) == "none"@);
    assert forall|i: int| 0 <= i < a.len() implies is_plain(#[trigger] a[i]) && a[i] != "none"@ by {
        let k = choose|k: int| 0 <= k < n && #[trigger] names[k] == a[i];
        assert(is_plain(names[k]));
    }
    assert forall|i: int| 0 <= i < b.len() implies is_plain(#[trigger] b[i]) && b[i] != "none"@ by {
        let k = choose|k: int| 0 <= k < n && #[trigger] names[k] == b[i];
        assert(is_plain(names[k]));
    }
    if a.len() > 0 && b.len() > 0 {
        lemma_joined_tell_apart(a, a.len() as int, b, b.len() as int);
        assert(a =~= b);
    } else if a.len() > 0 {
        lemma_joined_tell_apart(a, a.len() as int, none, 1);
        assert(a[0] == none[0]);
    } else if b.len() > 0 {
        lemma_joined_tell_apart(b, b.len() as int, none, 1);
        assert(b[0] == none[0]);
    } else {
        assert(a =~= b);
    }
    lemma_set_names_tell_apart(f, g, names, n);
    assert(f =~= g);
}

/// The names of the section flags that are compared.
#[verifier::opaque]
spec fn section_names() -> Seq<Seq<char>> {
    seq!["code"@, "idata"@, "bss"@, "x"@, "r"@, "w"@, "discard"@]
}

/// The section flags that are compared.
#[verifier::opaque]
spec fn section_bits(flags: u32) -> Seq<bool> {
    seq![
        flags & pe::IMAGE_SCN_CNT_CODE != 0,
        flags & pe::IMAGE_SCN_CNT_INITIALIZED_DATA != 0,
        flags & pe::IMAGE_SCN_CNT_UNINITIALIZED_DATA != 0,
        flags & pe::IMAGE_SCN_MEM_EXECUTE != 0,
        flags & pe::IMAGE_SCN_MEM_READ != 0,
        flags & pe::IMAGE_SCN_MEM_WRITE != 0,
        flags & pe::IMAGE_SCN_MEM_DISCARDABLE != 0,
    ]
}

/// The text of section flags.
#[verifier::opaque]
spec fn section_flags_text(flags: u32) -> Seq<char> {
    text::labelled(pe_diff::section_labels(flags))
}

/// The labels of section flags are the names of those that are set.
proof fn lemma_section_labels(flags: u32)
    ensures
        section_flags_text(flags) == text::labelled(set_names(section_bits(flags), section_names(), 7)),
        section_bits(flags).len() == 7,
{
    reveal(section_flags_text);
    reveal(section_bits);
    reveal(section_names);
    reveal_with_fuel(set_names, 8);
    assert(pe_diff::section_labels(flags) =~= set_names(section_bits(flags), section_names(), 7));
}

/// The names of the section flags can serve as labels.
proof fn lemma_section_names()
    ensures
        are_labels(section_names()),
        section_names().len() == 7,
{
    reveal(section_names);
    reveal_strlit("code");
    reveal_strlit("idata");
    reveal_strlit("bss");
    reveal_strlit("x");
    reveal_strlit("r");
    reveal_strlit("w");
    reveal_strlit("discard");
}

/// The section flags that are compared are equal exactly if their bits are.
proof fn lemma_section_bits(a: u32, b: u32)
    ensures
        section_bits(a) == section_bits(b) <==> a & 0xE200_00E0 == b & 0xE200_00E0,
{
    reveal(section_bits);
    assert((a & 0xE200_00E0 == b & 0xE200_00E0) <==> {
        &&& (a & 0x20 != 0) == (b & 0x20 != 0)
        &&& (a & 0x40 != 0) == (b & 0x40 != 0)
        &&& (a & 0x80 != 0) == (b & 0x80 != 0)
        &&& (a & 0x2000_0000 != 0) == (b & 0x2000_0000 != 0)
        &&& (a & 0x4000_0000 != 0) == (b & 0x4000_0000 != 0)
        &&& (a & 0x8000_0000 != 0) == (b & 0x8000_0000 != 0)
        &&& (a & 0x0200_0000 != 0) == (b & 0x0200_0000 != 0)
    }) by (bit_vector);
    if section_bits(a) == section_bits(b) {
        assert(section_bits(a)[0] == section_bits(b)[0]);
        assert(section_bits(a)[1] == section_bits(b)[1]);
        assert(section_bits(a)[2] == section_bits(b)[2]);
        assert(section_bits(a)[3] == section_bits(b)[3]);
        assert(section_bits(a)[4] == section_bits(b)[4]);
        assert(section_bits(a)[5] == section_bits(b)[5]);
        assert(section_bits(a)[6] == section_bits(b)[6]);
    } else {
        assert(!(section_bits(a) =~= section_bits(b)));
    }
}

/// The texts of two sets of section flags are equal exactly if those that are compared are.
proof fn lemma_section_flags(a: u32, b: u32)
    ensures
        section_flags_text(a) == section_flags_text(b) <==> a & 0xE200_00E0 == b & 0xE200_00E0,
{
    lemma_section_labels(a);
    lemma_section_labels(b);
    lemma_section_names();
    lemma_section_bits(a, b);
    if section_flags_text(a) == section_flags_text(b) {
        lemma_labelled_tell_apart(section_bits(a), section_bits(b), section_names());
    }
}

/// Without flags the text is `none`.
proof fn lemma_no_section_flags()
    ensures
        section_flags_text(0) == "none"@,
        0u32 & 0xE200_00E0 == 0,
{
    reveal(section_flags_text);
    assert(0u32 & 0xE200_00E0 == 0) by (bit_vector);
    assert(0u32 & 0x20 == 0 && 0u32 & 0x40 == 0 && 0u32 & 0x80 == 0
        && 0u32 & 0x2000_0000 == 0 && 0u32 & 0x4000_0000 == 0 && 0u32 & 0x8000_0000 == 0
        && 0u32 & 0x0200_0000 == 0)
        by (bit_vector);
}

/// The texts of two sets of section flags are equal exactly if both have the same of those that
/// are compared; the text is `none` exactly if there are none of them.
pub proof fn section_flags_tell_apart(a: u32, b: u32)
    ensures
        text::labelled(pe_diff::section_labels(a)) == text::labelled(pe_diff::section_labels(b)) <==> a
            & pe_diff::COMPARED_SECTION_FLAGS == b & pe_diff::COMPARED_SECTION_FLAGS,
        text::labelled(pe_diff::section_labels(a)) == "none"@ <==> a & pe_diff::COMPARED_SECTION_FLAGS
            == 0,
{
    lemma_section_flags(a, b);
    lemma_section_flags(a, 0);
    lemma_no_section_flags();
    reveal(section_flags_text);
}

/// The names of the file characteristics that are compared.
#[verifier::opaque]
spec fn file_names() -> Seq<Seq<char>> {
    seq!["executable"@, "dll"@, "large-address-aware"@, "relocs-stripped"@]
}

/// The file characteristics that are compared.
#[verifier::opaque]
spec fn file_bits(flags: u16) -> Seq<bool> {
    seq![
        flags & pe::IMAGE_FILE_EXECUTABLE_IMAGE != 0,
        flags & pe::IMAGE_FILE_DLL != 0,
        flags & pe::IMAGE_FILE_LARGE_ADDRESS_AWARE != 0,
        flags & pe::IMAGE_FILE_RELOCS_STRIPPED != 0,
    ]
}

/// The text of file characteristics.
#[verifier::opaque]
spec fn file_flags_text(flags: u16) -> Seq<char> {
    text::labelled(pe_diff::file_labels(flags))
}

/// The labels of file characteristics are the names of those that are set.
proof fn lemma_file_labels(flags: u16)
    ensures
        file_flags_text(flags) == text::labelled(set_names(file_bits(flags), file_names(), 4)),
        file_bits(flags).len() == 4,
{
    reveal(file_flags_text);
    reveal(file_bits);
    reveal(file_names);
    reveal_with_fuel(set_names, 5);
    assert(pe_diff::file_labels(flags) =~= set_names(file_bits(flags), file_names(), 4));
}

/// The names of the file characteristics can serve as labels.
proof fn lemma_file_names()
    ensures
        are_labels(file_names()),
        file_names().len() == 4,
{
    reveal(file_names);
    reveal_strlit("executable");
    reveal_strlit("dll");
    reveal_strlit("large-address-aware");
    reveal_strlit("relocs-stripped");
}

/// The file characteristics that are compared are equal exactly if their bits are.
proof fn lemma_file_bits(a: u16, b: u16)
    ensures
        file_bits(a) == file_bits(b) <==> a & 0x2023 == b & 0x2023,
{
    reveal(file_bits);
    assert((a & 0x2023 == b & 0x2023) <==> {
        &&& (a & 0x2 != 0) == (b & 0x2 != 0)
        &&& (a & 0x2000 != 0) == (b & 0x2000 != 0)
        &&& (a & 0x20 != 0) == (b & 0x20 != 0)
        &&& (a & 0x1 != 0) == (b & 0x1 != 0)
    }) by (bit_vector);
    if file_bits(a) == file_bits(b) {
        assert(file_bits(a)[0] == file_bits(b)[0]);
        assert(file_bits(a)[1] == file_bits(b)[1]);
        assert(file_bits(a)[2] == file_bits(b)[2]);
        assert(file_bits(a)[3] == file_bits(b)[3]);
    } else {
        assert(!(file_bits(a) =~= file_bits(b)));
    }
}

/// The texts of two sets of file characteristics are equal exactly if those that are compared are.
proof fn lemma_file_flags(a: u16, b: u16)
    ensures
        file_flags_text(a) == file_flags_text(b) <==> a & 0x2023 == b & 0x2023,
{
    lemma_file_labels(a);
    lemma_file_labels(b);
    lemma_file_names();
    lemma_file_bits(a, b);
    if file_flags_text(a) == file_flags_text(b) {
        lemma_labelled_tell_apart(file_bits(a), file_bits(b), file_names());
    }
}

/// Without flags the text is `none`.
proof fn lemma_no_file_flags()
    ensures
        file_flags_text(0) == "none"@,
        0u16 & 0x2023 == 0,
{
    reveal(file_flags_text);
    assert(0u16 & 0x2023 == 0) by (bit_vector);
    assert(0u16 & 0x2 == 0 && 0u16 & 0x2000 == 0 && 0u16 & 0x20 == 0 && 0u16 & 0x1 == 0)
        by (bit_vector);
}

/// The texts of two sets of file characteristics are equal exactly if both have the same of those that
/// are compared; the text is `none` exactly if there are none of them.
pub proof fn file_flags_tell_apart(a: u16, b: u16)
    ensures
        text::labelled(pe_diff::file_labels(a)) == text::labelled(pe_diff::file_labels(b)) <==> a
            & pe_diff::COMPARED_FILE_FLAGS == b & pe_diff::COMPARED_FILE_FLAGS,
        text::labelled(pe_diff::file_labels(a)) == "none"@ <==> a & pe_diff::COMPARED_FILE_FLAGS
            == 0,
{
    lemma_file_flags(a, b);
    lemma_file_flags(a, 0);
    lemma_no_file_flags();
    reveal(file_flags_text);
}

// ---- images ----

/// Whether all parts of an image that are compared can be read, and its base relocations counted.
pub open spec fn is_comparable(data: Seq<u8>) -> bool {
    &&& pe_file::pe_header_of(data) is Some
    &&& pe_file::pe_sections_of(data) is Some
    &&& pe_file::pe_imports_of(data) is Some
    &&& pe_file::pe_blocks_of(data) is Some
    &&& pe_diff::total_entries(pe_file::pe_blocks_of(data)->0) <= usize::MAX
}

/// Whether two headers agree on what is compared of them: the machine, the subsystem, the
/// characteristics that have a name, and whether there is an entry point.
pub open spec fn headers_agree(a: PeHeader, b: PeHeader) -> bool {
    &&& a.machine == b.machine
    &&& a.subsystem == b.subsystem
    &&& a.characteristics & pe_diff::COMPARED_FILE_FLAGS == b.characteristics
        & pe_diff::COMPARED_FILE_FLAGS
    &&& (a.entry_point == 0) == (b.entry_point == 0)
}

/// Two images that agree on what is compared have the same facts, whatever else they hold: where
/// the entry point is, the order and the contents of sections, where directories are, the order of
/// imports, timestamps, checksums and all other bytes do not matter.
pub proof fn only_what_is_compared_matters(a: Seq<u8>, b: Seq<u8>)
    requires
        is_comparable(a),
        is_comparable(b),
        headers_agree(pe_file::pe_header_of(a)->0, pe_file::pe_header_of(b)->0),
        section_texts(pe_file::pe_sections_of(a)->0) == section_texts(
            pe_file::pe_sections_of(b)->0,
        ),
        forall|k: usize|
            k < pe::NAMED_DIRECTORIES ==> pe_diff::is_present(
                #[trigger] pe_file::pe_directory_of(a, k),
            ) == pe_diff::is_present(pe_file::pe_directory_of(b, k)),
        import_texts(pe_file::pe_imports_of(a)->0) == import_texts(pe_file::pe_imports_of(b)->0),
        pe_diff::relocation_text(pe_file::pe_blocks_of(a)->0) == pe_diff::relocation_text(
            pe_file::pe_blocks_of(b)->0,
        ),
    ensures
        pe_diff::facts_of(a) is Ok,
        pe_diff::facts_of(a) == pe_diff::facts_of(b),
        pe_diff::facts_of(a)->Ok_0.has_entry == (pe_file::pe_header_of(a)->0.entry_point != 0),
{
    file_flags_tell_apart(
        pe_file::pe_header_of(a)->0.characteristics,
        pe_file::pe_header_of(b)->0.characteristics,
    );
    section_order_does_not_matter(
        pe_file::pe_sections_of(a)->0,
        pe_file::pe_sections_of(b)->0,
    );
    import_order_does_not_matter(pe_file::pe_imports_of(a)->0, pe_file::pe_imports_of(b)->0);
    let first = pe_diff::named_directories(a);
    let second = pe_diff::named_directories(b);
    assert forall|k: int| 0 <= k < first.len() implies pe_diff::is_present(#[trigger] first[k])
        == pe_diff::is_present(second[k]) by {
        assert(first[k] == pe_file::pe_directory_of(a, k as usize));
        assert(second[k] == pe_file::pe_directory_of(b, k as usize));
    }
    directory_places_do_not_matter(first, second, first.len() as int);
}

} // verus!
