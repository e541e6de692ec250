//! Grouping of the input sections into output sections.
use crate::align;
use crate::align::align_up;
use crate::error::LinkError;
use crate::input;
use crate::input::{InputObject, InputSection, ObjectView, SectionView};
use crate::pe;
use crate::pe_section;
use crate::pe_section::{
    coff_section_alignment, is_name, merge_characteristics, output_section_name, section_sort_key,
    OutputSection, OutputView, SectionContribution,
};
use vstd::prelude::*;

verus! {

/// Whether the input section belongs in the output section: they agree on the name, the merged
/// flags, and on whether they only take up memory.
pub open spec fn belongs(output: OutputView, section: SectionView) -> bool {
    &&& output.name == pe_section::output_name(section.name)
    &&& output.characteristics == section.characteristics & pe_section::MERGED_CHARACTERISTICS
    &&& output.is_bss == pe_section::is_bss(section.characteristics)
}

/// The first output section at `from` or behind it that the input section belongs in; the number
/// of output sections if there is none.
pub open spec fn group_from(outputs: Seq<OutputView>, section: SectionView, from: int) -> int
    decreases outputs.len() - from,
{
    if from < 0 || from >= outputs.len() {
        outputs.len() as int
    } else if belongs(outputs[from], section) {
        from
    } else {
        group_from(outputs, section, from + 1)
    }
}

/// An output section for the input section, with nothing in it yet.
pub open spec fn empty_output(section: SectionView) -> OutputView {
    OutputView {
        name: pe_section::output_name(section.name),
        virtual_address: 0,
        virtual_size: 0,
        file_offset: 0,
        raw_data_size: 0,
        characteristics: section.characteristics & pe_section::MERGED_CHARACTERISTICS,
        is_bss: pe_section::is_bss(section.characteristics),
        contributions: Seq::empty(),
    }
}

/// The offset at which the input section goes into the output section.
pub open spec fn next_offset(output: OutputView, section: SectionView) -> int {
    align::aligned(
        output.virtual_size as int,
        pe_section::section_alignment(section.characteristics),
    )
}

/// The output section with the input section put behind what it has.
pub open spec fn extended(
    output: OutputView,
    section: SectionView,
    object_index: int,
    section_index: int,
) -> OutputView {
    let offset = next_offset(output, section);
    let end = (offset + pe_section::section_extent(section)) as u32;
    OutputView {
        virtual_size: end,
        raw_data_size: if output.is_bss {
            output.raw_data_size
        } else {
            end
        },
        contributions: output.contributions.push(
            SectionContribution {
                object_index: object_index as usize,
                section_index: section_index as usize,
                output_offset: offset as u32,
                size: pe_section::section_extent(section) as u32,
            },
        ),
        ..output
    }
}

/// The output sections with one that the input section belongs in, as far as there was none.
pub open spec fn with_group(outputs: Seq<OutputView>, section: SectionView) -> Seq<OutputView> {
    if group_from(outputs, section, 0) < outputs.len() {
        outputs
    } else {
        outputs.push(empty_output(section))
    }
}

/// The output sections once the input section has been put in its place.
pub open spec fn with_section(
    outputs: Seq<OutputView>,
    section: SectionView,
    object_index: int,
    section_index: int,
) -> Result<Seq<OutputView>, LinkError> {
    let group = group_from(outputs, section, 0);
    let all = with_group(outputs, section);
    if all[group].virtual_size + pe_section::section_alignment(section.characteristics) > u32::MAX {
        Err(LinkError::ArithmeticOverflow)
    } else if next_offset(all[group], section) + pe_section::section_extent(section) > u32::MAX {
        Err(LinkError::SectionSizeOverflow)
    } else {
        Ok(all.update(group, extended(all[group], section, object_index, section_index)))
    }
}

/// The output sections once the sections of the first `i` objects, and the first `j` sections of
/// the object behind them, have been put in their places.
pub open spec fn grouped(objects: Seq<ObjectView>, i: int, j: int) -> Result<
    Seq<OutputView>,
    LinkError,
>
    decreases i, j,
{
    if j > 0 {
        match grouped(objects, i, j - 1) {
            Err(e) => Err(e),
            Ok(outputs) => {
                let section = objects[i].sections[j - 1];
                if pe_section::is_discarded(section) {
                    Ok(outputs)
                } else {
                    with_section(outputs, section, i, j - 1)
                }
            },
        }
    } else if i > 0 {
        grouped(objects, i - 1, objects[i - 1].sections.len() as int)
    } else {
        Ok(Seq::empty())
    }
}

/// The output sections that all input sections went into, in the order of their first input.
pub open spec fn groups(objects: Seq<ObjectView>) -> Result<Seq<OutputView>, LinkError> {
    grouped(objects, objects.len() as int, 0)
}

/// An error stays.
pub proof fn lemma_grouped_error(objects: Seq<ObjectView>, i: int, j: int)
    requires
        0 <= i < objects.len(),
        0 <= j <= objects[i].sections.len(),
        grouped(objects, i, j) is Err,
    ensures
        groups(objects) == grouped(objects, i, j),
    decreases objects.len() - i, objects[i].sections.len() - j,
{
    if j < objects[i].sections.len() {
        assert(grouped(objects, i, j + 1) == grouped(objects, i, j));
        lemma_grouped_error(objects, i, j + 1);
    } else {
        assert(grouped(objects, i + 1, 0) == grouped(objects, i, j));
        if i + 1 < objects.len() {
            lemma_grouped_error(objects, i + 1, 0);
        }
    }
}

/// Puts an input section in its place and returns the output section and the offset in it.
pub fn place_section(
    sections: &mut Vec<OutputSection>,
    section: &InputSection,
    object_index: usize,
    section_index: usize,
) -> (r: Result<(usize, u32), LinkError>)
    ensures
        match r {
            Ok((group, offset)) => {
                let before = pe_section::output_views(old(sections)@);
                &&& with_section(before, section@, object_index as int, section_index as int)
                    == Ok::<Seq<OutputView>, LinkError>(pe_section::output_views(final(sections)@))
                &&& group == group_from(before, section@, 0)
                &&& offset == next_offset(with_group(before, section@)[group as int], section@)
            },
            Err(e) => {
                let before = pe_section::output_views(old(sections)@);
                &&& with_section(before, section@, object_index as int, section_index as int)
                    == Err::<Seq<OutputView>, LinkError>(e)
                &&& pe_section::output_views(final(sections)@) == with_group(before, section@)
            },
        },
{
    let ghost before = pe_section::output_views(sections@);
    let out_name = output_section_name(section.name.as_slice());
    let out_chars = merge_characteristics(section.characteristics);
    let only_memory = section.characteristics & pe::IMAGE_SCN_CNT_UNINITIALIZED_DATA != 0;
    let mut group: usize = 0;
    while group < sections.len() && !(is_name(&sections[group].name, out_name)
        && sections[group].characteristics == out_chars && sections[group].is_bss == only_memory)
        invariant
            group <= sections.len(),
            out_name@ == pe_section::output_name(section@.name),
            out_chars == section@.characteristics & pe_section::MERGED_CHARACTERISTICS,
            only_memory == pe_section::is_bss(section@.characteristics),
            before == pe_section::output_views(sections@),
            group_from(before, section@, 0) == group_from(before, section@, group as int),
        decreases sections.len() - group,
    {
        assert(before[group as int] == sections@[group as int]@);
        group += 1;
    }
    if group < sections.len() {
        assert(before[group as int] == sections@[group as int]@);
        assert(belongs(before[group as int], section@));
    }
    assert(group == group_from(before, section@, 0));
    if group == sections.len() {
        sections.push(
            OutputSection {
                name: out_name,
                virtual_address: 0,
                virtual_size: 0,
                file_offset: 0,
                raw_data_size: 0,
                characteristics: out_chars,
                is_bss: only_memory,
                contributions: Vec::new(),
            },
        );
        assert(sections@[group as int]@ =~= empty_output(section@));
        assert(pe_section::output_views(sections@) =~= before.push(empty_output(section@)));
    }
    let ghost all = pe_section::output_views(sections@);
    assert(all[group as int] == sections@[group as int]@);
    let alignment = coff_section_alignment(section.characteristics);
    let virtual_size = sections[group].virtual_size;
    proof {
        pe_section::section_alignment_is_power_of_two(section.characteristics);
    }
    if virtual_size > u32::MAX - alignment {
        return Err(LinkError::ArithmeticOverflow);
    }
    let offset = align_up(virtual_size, alignment);
    let data_len = section.data.len();
    let data_size: u32 = if data_len <= u32::MAX as usize {
        data_len as u32
    } else {
        u32::MAX
    };
    let size: u32 = if section.size <= data_size {
        data_size
    } else {
        section.size
    };
    if offset > u32::MAX - size {
        return Err(LinkError::SectionSizeOverflow);
    }
    sections[group].virtual_size = offset + size;
    if !only_memory {
        sections[group].raw_data_size = offset + size;
    }
    sections[group].contributions.push(
        SectionContribution { object_index, section_index, output_offset: offset, size },
    );
    proof {
        let ext = extended(all[group as int], section@, object_index as int, section_index as int);
        assert(sections@[group as int]@.contributions =~= ext.contributions);
        assert(sections@[group as int]@ =~= ext);
        assert(pe_section::output_views(sections@) =~= all.update(group as int, ext));
    }
    Ok((group, offset))
}

// ---- order of the output sections ----

/// The output sections with the sort key `key`, in their order.
pub open spec fn bucket(outputs: Seq<OutputView>, key: int) -> Seq<OutputView> {
    outputs.filter(|o: OutputView| pe_section::sort_key(o.name) == key)
}

/// The output sections whose sort key is below `limit`, by rising key; those with one key stay in
/// their order.
pub open spec fn buckets_below(outputs: Seq<OutputView>, limit: int) -> Seq<OutputView>
    decreases limit,
{
    if limit <= 0 {
        Seq::empty()
    } else {
        buckets_below(outputs, limit - 1) + bucket(outputs, limit - 1)
    }
}

/// The output sections by rising sort key; those with one key stay in their order.
pub open spec fn sorted(outputs: Seq<OutputView>) -> Seq<OutputView> {
    buckets_below(outputs, 11)
}

/// Where the elements of a bucket come from.
proof fn lemma_bucket(outputs: Seq<OutputView>, key: int)
    ensures
        forall|i: int|
            0 <= i < bucket(outputs, key).len() ==> pe_section::sort_key(
                (#[trigger] bucket(outputs, key)[i]).name,
            ) == key,
{
    broadcast use vstd::seq_lib::group_filter_ensures;

}

/// The sections with a key below `low` come first, all others have at least that key.
proof fn lemma_buckets_below(outputs: Seq<OutputView>, low: int, limit: int)
    requires
        0 <= low <= limit,
    ensures
        buckets_below(outputs, low).len() <= buckets_below(outputs, limit).len(),
        forall|i: int|
            0 <= i < buckets_below(outputs, low).len() ==> pe_section::sort_key(
                (#[trigger] buckets_below(outputs, limit)[i]).name,
            ) < low,
        forall|i: int|
            buckets_below(outputs, low).len() <= i < buckets_below(outputs, limit).len() ==> low
                <= pe_section::sort_key((#[trigger] buckets_below(outputs, limit)[i]).name) < limit,
        buckets_below(outputs, limit).take(buckets_below(outputs, low).len() as int)
            == buckets_below(outputs, low),
    decreases limit,
{
    if limit > low {
        lemma_buckets_below(outputs, low, limit - 1);
        lemma_bucket(outputs, limit - 1);
        let a = buckets_below(outputs, limit - 1);
        let b = bucket(outputs, limit - 1);
        assert(buckets_below(outputs, limit) == a + b);
        assert((a + b).take(buckets_below(outputs, low).len() as int) =~= a.take(
            buckets_below(outputs, low).len() as int,
        ));
    } else if low > 0 {
        lemma_buckets_below(outputs, low - 1, limit - 1);
        lemma_bucket(outputs, limit - 1);
        let a = buckets_below(outputs, limit - 1);
        let b = bucket(outputs, limit - 1);
        assert(buckets_below(outputs, limit) == a + b);
        assert((a + b).take((a + b).len() as int) =~= a + b);
    } else {
        assert(buckets_below(outputs, 0).take(0) =~= buckets_below(outputs, 0));
    }
}

/// A section put in front of all others goes in front of those with its key.
pub proof fn lemma_buckets_prepend(first: OutputView, rest: Seq<OutputView>, limit: int)
    requires
        0 <= limit,
    ensures
        pe_section::sort_key(first.name) >= limit ==> buckets_below(seq![first] + rest, limit)
            == buckets_below(rest, limit),
        pe_section::sort_key(first.name) < limit ==> buckets_below(seq![first] + rest, limit) == buckets_below(
            rest,
            limit,
        ).insert(buckets_below(rest, pe_section::sort_key(first.name)).len() as int, first),
        pe_section::sort_key(first.name) < limit ==> buckets_below(rest, pe_section::sort_key(first.name)).len()
            <= buckets_below(rest, limit).len(),
    decreases limit,
{
    let key = pe_section::sort_key(first.name);
    let all = seq![first] + rest;
    if limit > 0 {
        lemma_buckets_prepend(first, rest, limit - 1);
        let pred = |o: OutputView| pe_section::sort_key(o.name) == limit - 1;
        rest.lemma_filter_prepend(first, pred);
        let b = bucket(rest, limit - 1);
        if key == limit - 1 {
            assert(bucket(all, limit - 1) =~= seq![first] + b);
            assert(buckets_below(all, limit) =~= buckets_below(rest, limit).insert(
                buckets_below(rest, key).len() as int,
                first,
            ));
        } else {
            assert(bucket(all, limit - 1) =~= b);
            if key < limit - 1 {
                let p = buckets_below(rest, key).len() as int;
                assert(buckets_below(all, limit) =~= buckets_below(rest, limit).insert(p, first));
            }
        }
    }
}

/// Sorts the output sections; sections with one key stay in their order.
pub fn sort_sections(sections: Vec<OutputSection>) -> (r: Vec<OutputSection>)
    ensures
        pe_section::output_views(r@) == sorted(pe_section::output_views(sections@)),
{
    let mut left = sections;
    let mut out: Vec<OutputSection> = Vec::new();
    let ghost all = pe_section::output_views(sections@);
    proof {
        lemma_sorted_empty();
        assert(all.skip(all.len() as int) =~= Seq::<OutputView>::empty());
        assert(pe_section::output_views(out@) =~= Seq::<OutputView>::empty());
    }
    while left.len() > 0
        invariant
            left@.len() <= sections@.len(),
            left@ == sections@.take(left@.len() as int),
            all == pe_section::output_views(sections@),
            pe_section::output_views(out@) == sorted(all.skip(left@.len() as int)),
        decreases left@.len(),
    {
        let ghost n = left@.len() as int;
        let section = left.pop().unwrap();
        let ghost rest = all.skip(n);
        assert(section == sections@[n - 1]);
        assert(all.skip(n - 1) =~= seq![section@] + rest);
        let key = section_sort_key(&section.name);
        proof {
            lemma_buckets_prepend(section@, rest, 11);
            lemma_buckets_below(rest, key as int, 11);
        }
        let ghost place = buckets_below(rest, key as int).len() as int;
        let mut i: usize = 0;
        while i < out.len() && section_sort_key(&out[i].name) < key
            invariant
                i <= out.len(),
                key <= 10,
                key == pe_section::sort_key(section@.name),
                place == buckets_below(rest, key as int).len(),
                pe_section::output_views(out@) == sorted(rest),
                i <= place <= sorted(rest).len(),
                forall|k: int|
                    0 <= k < place ==> pe_section::sort_key((#[trigger] sorted(rest)[k]).name) < key,
                forall|k: int|
                    place <= k < sorted(rest).len() ==> pe_section::sort_key(
                        (#[trigger] sorted(rest)[k]).name,
                    ) >= key,
            decreases out.len() - i,
        {
            assert(sorted(rest)[i as int] == out@[i as int]@);
            i += 1;
        }
        if i < out.len() {
            assert(sorted(rest)[i as int] == out@[i as int]@);
        }
        assert(out@.len() == sorted(rest).len());
        assert(i == place);
        let ghost before = out@;
        out.insert(i, section);
        assert(pe_section::output_views(out@) =~= pe_section::output_views(before).insert(place, section@));
        assert(left@ =~= sections@.take(n - 1));
    }
    assert(all.skip(0) =~= all);
    out
}

/// Nothing to sort.
proof fn lemma_sorted_empty()
    ensures
        sorted(Seq::<OutputView>::empty()) == Seq::<OutputView>::empty(),
{
    lemma_buckets_of_empty(11);
}

/// No sections are below any key.
proof fn lemma_buckets_of_empty(limit: int)
    ensures
        buckets_below(Seq::<OutputView>::empty(), limit) == Seq::<OutputView>::empty(),
    decreases limit,
{
    reveal(Seq::filter);
    if limit > 0 {
        lemma_buckets_of_empty(limit - 1);
        assert(buckets_below(Seq::<OutputView>::empty(), limit) =~= Seq::<OutputView>::empty());
    }
}

// ---- places of the input sections ----

/// Whether the `c`-th contribution of the `k`-th output section is section `j` of object `i`.
pub open spec fn contributes(outputs: Seq<OutputView>, k: int, c: int, i: int, j: int) -> bool {
    &&& 0 <= k < outputs.len()
    &&& 0 <= c < outputs[k].contributions.len()
    &&& outputs[k].contributions[c].object_index == i
    &&& outputs[k].contributions[c].section_index == j
}

/// The offset of the last of the first `n` contributions that is section `j` of object `i`.
pub open spec fn offset_among(
    contributions: Seq<SectionContribution>,
    n: int,
    i: int,
    j: int,
) -> Option<u32>
    decreases n,
{
    if n <= 0 {
        None
    } else if contributions[n - 1].object_index == i && contributions[n - 1].section_index == j {
        Some(contributions[n - 1].output_offset)
    } else {
        offset_among(contributions, n - 1, i, j)
    }
}

/// The last of the first `n` output sections that section `j` of object `i` is a part of, and the
/// offset in it.
pub open spec fn home_among(outputs: Seq<OutputView>, n: int, i: int, j: int) -> Option<
    (usize, u32),
>
    decreases n,
{
    if n <= 0 {
        None
    } else {
        match offset_among(
            outputs[n - 1].contributions,
            outputs[n - 1].contributions.len() as int,
            i,
            j,
        ) {
            Some(offset) => Some(((n - 1) as usize, offset)),
            None => home_among(outputs, n - 1, i, j),
        }
    }
}

/// The output section that section `j` of object `i` is a part of, and the offset in it.
pub open spec fn home(outputs: Seq<OutputView>, i: int, j: int) -> Option<(usize, u32)> {
    home_among(outputs, outputs.len() as int, i, j)
}

/// The section with its place in the output.
pub open spec fn with_output(
    section: SectionView,
    output_section: Option<usize>,
    output_offset: u32,
) -> SectionView {
    SectionView { output_section, output_offset, ..section }
}

/// The section with the place that the output sections give it, if it claims one.
pub open spec fn remapped_section(
    section: SectionView,
    outputs: Seq<OutputView>,
    i: int,
    j: int,
) -> SectionView {
    if section.output_section is Some {
        match home(outputs, i, j) {
            Some((k, offset)) => with_output(section, Some(k), offset),
            None => section,
        }
    } else {
        section
    }
}

/// The object with its sections in the places that the output sections give them.
pub open spec fn remapped_object(object: ObjectView, outputs: Seq<OutputView>, i: int) -> ObjectView {
    ObjectView {
        sections: Seq::new(
            object.sections.len(),
            |j: int| remapped_section(object.sections[j], outputs, i, j),
        ),
        ..object
    }
}

/// Whether section `j` of object `i` claims a place that no output section gives it.
pub open spec fn is_stray(objects: Seq<ObjectView>, outputs: Seq<OutputView>, i: int, j: int) -> bool {
    &&& 0 <= i < objects.len()
    &&& 0 <= j < objects[i].sections.len()
    &&& objects[i].sections[j].output_section is Some
    &&& home(outputs, i, j) is None
}

/// The object with those of its first `n` sections that claim a place in the places that the output
/// sections give them.
pub open spec fn remapped_up_to(
    object: ObjectView,
    outputs: Seq<OutputView>,
    i: int,
    n: int,
) -> ObjectView {
    ObjectView {
        sections: Seq::new(
            object.sections.len(),
            |j: int|
                if j < n {
                    remapped_section(object.sections[j], outputs, i, j)
                } else {
                    object.sections[j]
                },
        ),
        ..object
    }
}

/// Whether giving the sections their places stops at section `j` of object `i`, the first that
/// claims a place that no output section gives it: the sections in front of it have their places,
/// the others are as they were.
pub open spec fn remap_stops_at(
    before: Seq<ObjectView>,
    after: Seq<ObjectView>,
    outputs: Seq<OutputView>,
    i: int,
    j: int,
) -> bool {
    &&& is_stray(before, outputs, i, j)
    &&& forall|a: int, b: int|
        comes_before(a, b, i, j) ==> !#[trigger] is_stray(before, outputs, a, b)
    &&& after.len() == before.len()
    &&& forall|a: int|
        0 <= a < before.len() ==> #[trigger] after[a] == (if a < i {
            remapped_object(before[a], outputs, a)
        } else if a == i {
            remapped_up_to(before[a], outputs, a, j)
        } else {
            before[a]
        })
}

/// Gives each section that claims a place in the output the place that the output sections have
/// for it, up to the first that they have none for.
pub fn remap_output_section_indices(
    objects: &mut Vec<InputObject>,
    sections: &Vec<OutputSection>,
) -> (r: Result<(), LinkError>)
    ensures
        final(objects)@.len() == old(objects)@.len(),
        match r {
            Ok(()) => {
                &&& forall|i: int|
                    0 <= i < old(objects)@.len() ==> (#[trigger] final(objects)@[i])@
                        == remapped_object(old(objects)@[i]@, pe_section::output_views(sections@), i)
                &&& forall|i: int, j: int|
                    !#[trigger] is_stray(
                        input::object_views(old(objects)@),
                        pe_section::output_views(sections@),
                        i,
                        j,
                    )
            },
            Err(e) => {
                &&& e == LinkError::SectionRemap
                &&& exists|i: int, j: int|
                    #[trigger] remap_stops_at(
                        input::object_views(old(objects)@),
                        input::object_views(final(objects)@),
                        pe_section::output_views(sections@),
                        i,
                        j,
                    )
            },
        },
{
    let ghost before = input::object_views(objects@);
    let ghost outputs = pe_section::output_views(sections@);
    let table = contribution_table(objects, sections);
    let mut i: usize = 0;
    while i < objects.len()
        invariant
            i <= objects@.len(),
            objects@.len() == old(objects)@.len(),
            before == input::object_views(old(objects)@),
            outputs == pe_section::output_views(sections@),
            table@.len() == before.len(),
            forall|a: int|
                0 <= a < before.len() ==> (#[trigger] table@[a])@.len() == before[a].sections.len(),
            forall|a: int, b: int|
                0 <= a < before.len() && 0 <= b < before[a].sections.len()
                    ==> #[trigger] table@[a]@[b] == home(outputs, a, b),
            forall|a: int| i <= a < objects@.len() ==> objects@[a] == old(objects)@[a],
            forall|a: int|
                0 <= a < i ==> (#[trigger] objects@[a])@ == remapped_object(
                    old(objects)@[a]@,
                    outputs,
                    a,
                ),
            forall|a: int, b: int| 0 <= a < i ==> !#[trigger] is_stray(before, outputs, a, b),
        decreases objects@.len() - i,
    {
        let mut j: usize = 0;
        assert(before[i as int] == old(objects)@[i as int]@);
        while j < objects[i as usize].sections.len()
            invariant
                i < objects@.len(),
                objects@.len() == old(objects)@.len(),
                before == input::object_views(old(objects)@),
                outputs == pe_section::output_views(sections@),
                table@.len() == before.len(),
                forall|a: int|
                    0 <= a < before.len() ==> (#[trigger] table@[a])@.len()
                        == before[a].sections.len(),
                forall|a: int, b: int|
                    0 <= a < before.len() && 0 <= b < before[a].sections.len()
                        ==> #[trigger] table@[a]@[b] == home(outputs, a, b),
                forall|a: int| i < a < objects@.len() ==> objects@[a] == old(objects)@[a],
                forall|a: int|
                    0 <= a < i ==> (#[trigger] objects@[a])@ == remapped_object(
                        old(objects)@[a]@,
                        outputs,
                        a,
                    ),
                forall|a: int, b: int| 0 <= a < i ==> !#[trigger] is_stray(before, outputs, a, b),
                j <= objects@[i as int].sections@.len(),
                before[i as int] == old(objects)@[i as int]@,
                objects@[i as int].path == old(objects)@[i as int].path,
                objects@[i as int].symbols == old(objects)@[i as int].symbols,
                objects@[i as int].sections@.len() == old(objects)@[i as int].sections@.len(),
                forall|b: int|
                    j <= b < objects@[i as int].sections@.len()
                        ==> objects@[i as int].sections@[b] == old(objects)@[i as int].sections@[b],
                forall|b: int|
                    0 <= b < j ==> (#[trigger] objects@[i as int].sections@[b])@
                        == remapped_section(
                        old(objects)@[i as int].sections@[b]@,
                        outputs,
                        i as int,
                        b,
                    ),
                forall|b: int| 0 <= b < j ==> !#[trigger] is_stray(before, outputs, i as int, b),
            decreases objects@[i as int].sections@.len() - j,
        {
            assert(before[i as int].sections[j as int] == old(
                objects,
            )@[i as int].sections@[j as int]@);
            if objects[i].sections[j].output_section.is_some() {
                match table[i][j] {
                    Some((new_index, output_offset)) => {
                        objects[i].sections[j].output_section = Some(new_index);
                        objects[i].sections[j].output_offset = output_offset;
                    },
                    None => {
                        proof {
                            let after = input::object_views(objects@);
                            assert(after[i as int].sections =~= remapped_up_to(
                                before[i as int],
                                outputs,
                                i as int,
                                j as int,
                            ).sections);
                            assert(is_stray(before, outputs, i as int, j as int));
                            assert(remap_stops_at(before, after, outputs, i as int, j as int));
                        }
                        return Err(LinkError::SectionRemap);
                    },
                }
            }
            j += 1;
        }
        assert(objects@[i as int]@.sections =~= remapped_object(
            old(objects)@[i as int]@,
            outputs,
            i as int,
        ).sections);
        assert(objects@[i as int]@ == remapped_object(
            old(objects)@[i as int]@,
            outputs,
            i as int,
        ));
        i += 1;
    }
    Ok(())
}

/// Returns for each section of each object the place that the output sections have for it.
fn contribution_table(
    objects: &Vec<InputObject>,
    sections: &Vec<OutputSection>,
) -> (table: Vec<Vec<Option<(usize, u32)>>>)
    ensures
        table@.len() == objects@.len(),
        forall|a: int|
            0 <= a < objects@.len() ==> (#[trigger] table@[a])@.len()
                == objects@[a].sections@.len(),
        forall|a: int, b: int|
            0 <= a < objects@.len() && 0 <= b < objects@[a].sections@.len()
                ==> #[trigger] table@[a]@[b] == home(pe_section::output_views(sections@), a, b),
{
    let ghost outputs = pe_section::output_views(sections@);
    let mut table: Vec<Vec<Option<(usize, u32)>>> = Vec::new();
    let mut i: usize = 0;
    while i < objects.len()
        invariant
            i <= objects@.len(),
            table@.len() == i,
            forall|a: int|
                0 <= a < i ==> (#[trigger] table@[a])@.len() == objects@[a].sections@.len(),
            forall|a: int, b: int|
                0 <= a < i && 0 <= b < objects@[a].sections@.len() ==> #[trigger] table@[a]@[b]
                    == home_among(outputs, 0, a, b),
        decreases objects@.len() - i,
    {
        let row: Vec<Option<(usize, u32)>> = no_places(objects[i].sections.len());
        table.push(row);
        i += 1;
    }
    let mut k: usize = 0;
    while k < sections.len()
        invariant
            k <= sections@.len(),
            outputs == pe_section::output_views(sections@),
            table@.len() == objects@.len(),
            forall|a: int|
                0 <= a < objects@.len() ==> (#[trigger] table@[a])@.len()
                    == objects@[a].sections@.len(),
            forall|a: int, b: int|
                0 <= a < objects@.len() && 0 <= b < objects@[a].sections@.len()
                    ==> #[trigger] table@[a]@[b] == home_among(outputs, k as int, a, b),
        decreases sections@.len() - k,
    {
        let mut c: usize = 0;
        let ghost contributions = outputs[k as int].contributions;
        assert(contributions == sections@[k as int].contributions@);
        while c < sections[k].contributions.len()
            invariant
                k < sections@.len(),
                c <= contributions.len(),
                contributions == sections@[k as int].contributions@,
                table@.len() == objects@.len(),
                forall|a: int|
                    0 <= a < objects@.len() ==> (#[trigger] table@[a])@.len()
                        == objects@[a].sections@.len(),
                forall|a: int, b: int|
                    0 <= a < objects@.len() && 0 <= b < objects@[a].sections@.len()
                        ==> #[trigger] table@[a]@[b] == (match offset_among(
                        contributions,
                        c as int,
                        a,
                        b,
                    ) {
                        Some(offset) => Some((k, offset)),
                        None => home_among(outputs, k as int, a, b),
                    }),
            decreases contributions.len() - c,
        {
            let contribution = sections[k].contributions[c];
            let oi = contribution.object_index;
            let si = contribution.section_index;
            if oi < table.len() && si < table[oi].len() {
                table[oi][si] = Some((k, contribution.output_offset));
            }
            c += 1;
        }
        k += 1;
    }
    table
}

/// Returns a list of so many unknown places.
fn no_places(n: usize) -> (row: Vec<Option<(usize, u32)>>)
    ensures
        row@.len() == n,
        forall|b: int| 0 <= b < n ==> row@[b] == None::<(usize, u32)>,
{
    let mut row: Vec<Option<(usize, u32)>> = Vec::new();
    let mut j: usize = 0;
    while j < n
        invariant
            j <= n,
            row@.len() == j,
            forall|b: int| 0 <= b < j ==> row@[b] == None::<(usize, u32)>,
        decreases n - j,
    {
        row.push(None);
        j += 1;
    }
    row
}

// ---- what grouping keeps ----

/// Whether section `b` of object `a` comes before section `j` of object `i`.
pub open spec fn comes_before(a: int, b: int, i: int, j: int) -> bool {
    a < i || a == i && b < j
}

/// Whether the object has that section.
pub open spec fn has_section(objects: Seq<ObjectView>, i: int, j: int) -> bool {
    0 <= i < objects.len() && 0 <= j < objects[i].sections.len()
}

/// Whether positions of objects, sections and symbols are machine integers.
pub open spec fn is_indexable(objects: Seq<ObjectView>) -> bool {
    &&& objects.len() <= usize::MAX
    &&& forall|i: int|
        0 <= i < objects.len() ==> (#[trigger] objects[i]).sections.len() <= usize::MAX
            && objects[i].symbols.len() <= usize::MAX
}

/// Where the contributions in front of the `c`-th one end.
pub open spec fn end_before(contributions: Seq<SectionContribution>, c: int) -> int {
    if c <= 0 {
        0
    } else {
        contributions[c - 1].output_offset + contributions[c - 1].size
    }
}

/// The input section that a contribution stands for.
pub open spec fn source(objects: Seq<ObjectView>, contribution: SectionContribution) -> SectionView {
    objects[contribution.object_index as int].sections[contribution.section_index as int]
}

/// Whether an output section holds input sections that belong in it, one behind the other, each
/// at the next offset that suits its alignment.
pub open spec fn is_packed(objects: Seq<ObjectView>, output: OutputView) -> bool {
    let contributions = output.contributions;
    &&& forall|c: int|
        0 <= c < contributions.len() ==> {
            let contribution = #[trigger] contributions[c];
            let section = source(objects, contribution);
            &&& has_section(
                objects,
                contribution.object_index as int,
                contribution.section_index as int,
            )
            &&& !pe_section::is_discarded(section)
            &&& belongs(output, section)
            &&& contribution.size == pe_section::section_extent(section)
            &&& contribution.output_offset == align::aligned(
                end_before(contributions, c),
                pe_section::section_alignment(section.characteristics),
            )
        }
    &&& forall|c: int, d: int|
        0 <= c < d < contributions.len() ==> comes_before(
            (#[trigger] contributions[c]).object_index as int,
            contributions[c].section_index as int,
            (#[trigger] contributions[d]).object_index as int,
            contributions[d].section_index as int,
        )
    &&& contributions.len() > 0
    &&& output.virtual_size == end_before(contributions, contributions.len() as int)
}

/// Whether two output sections take the same input sections.
pub open spec fn same_group(a: OutputView, b: OutputView) -> bool {
    a.name == b.name && a.characteristics == b.characteristics && a.is_bss == b.is_bss
}

/// Whether every output section is packed.
#[verifier::opaque]
pub open spec fn all_packed(objects: Seq<ObjectView>, outputs: Seq<OutputView>) -> bool {
    forall|k: int| 0 <= k < outputs.len() ==> is_packed(objects, #[trigger] outputs[k])
}

/// Whether exactly the output sections that only take up memory have no bytes in the file.
#[verifier::opaque]
pub open spec fn raw_sizes_follow(outputs: Seq<OutputView>) -> bool {
    forall|k: int|
        0 <= k < outputs.len() ==> (#[trigger] outputs[k]).raw_data_size == (if outputs[k].is_bss {
            0
        } else {
            outputs[k].virtual_size
        })
}

/// Whether no two output sections take the same input sections.
#[verifier::opaque]
pub open spec fn groups_differ(outputs: Seq<OutputView>) -> bool {
    forall|k: int, l: int|
        0 <= k < l < outputs.len() ==> !same_group(#[trigger] outputs[k], #[trigger] outputs[l])
}

/// Whether all contributions come before section `j` of object `i`.
#[verifier::opaque]
pub open spec fn all_before(outputs: Seq<OutputView>, i: int, j: int) -> bool {
    forall|k: int, c: int|
        0 <= k < outputs.len() && 0 <= c < outputs[k].contributions.len() ==> comes_before(
            (#[trigger] outputs[k].contributions[c]).object_index as int,
            outputs[k].contributions[c].section_index as int,
            i,
            j,
        )
}

/// Whether section `b` of object `a` is part of some output section.
pub open spec fn is_placed(outputs: Seq<OutputView>, a: int, b: int) -> bool {
    exists|k: int, c: int| #[trigger] contributes(outputs, k, c, a, b)
}

/// Whether every section in front of section `j` of object `i` that is not discarded is part of
/// some output section.
#[verifier::opaque]
pub open spec fn all_placed(objects: Seq<ObjectView>, outputs: Seq<OutputView>, i: int, j: int) -> bool {
    forall|a: int, b: int|
        has_section(objects, a, b) && comes_before(a, b, i, j) && !pe_section::is_discarded(
            objects[a].sections[b],
        ) ==> #[trigger] is_placed(outputs, a, b)
}

/// Whether the output sections hold exactly the input sections in front of section `j` of object
/// `i` that are not discarded, each in the one output section that it belongs in.
pub open spec fn holds_before(objects: Seq<ObjectView>, outputs: Seq<OutputView>, i: int, j: int) -> bool {
    &&& all_packed(objects, outputs)
    &&& raw_sizes_follow(outputs)
    &&& groups_differ(outputs)
    &&& all_before(outputs, i, j)
    &&& all_placed(objects, outputs, i, j)
}

/// The first output section that an input section belongs in is the only one.
proof fn lemma_group_from(outputs: Seq<OutputView>, section: SectionView, from: int)
    requires
        0 <= from <= outputs.len(),
    ensures
        from <= group_from(outputs, section, from) <= outputs.len(),
        group_from(outputs, section, from) < outputs.len() ==> belongs(
            outputs[group_from(outputs, section, from)],
            section,
        ),
        forall|k: int|
            from <= k < group_from(outputs, section, from) ==> !belongs(
                #[trigger] outputs[k],
                section,
            ),
    decreases outputs.len() - from,
{
    if from < outputs.len() && !belongs(outputs[from], section) {
        lemma_group_from(outputs, section, from + 1);
    }
}

/// An output section stays packed when one more section goes into it.
proof fn lemma_extended(objects: Seq<ObjectView>, output: OutputView, i: int, j: int)
    requires
        is_indexable(objects),
        has_section(objects, i, j),
        !pe_section::is_discarded(objects[i].sections[j]),
        belongs(output, objects[i].sections[j]),
        output.contributions.len() > 0 ==> is_packed(objects, output),
        output.contributions.len() == 0 ==> output.virtual_size == 0,
        forall|c: int|
            0 <= c < output.contributions.len() ==> comes_before(
                (#[trigger] output.contributions[c]).object_index as int,
                output.contributions[c].section_index as int,
                i,
                j,
            ),
        next_offset(output, objects[i].sections[j]) + pe_section::section_extent(objects[i].sections[j])
            <= u32::MAX,
    ensures
        is_packed(objects, extended(output, objects[i].sections[j], i, j)),
{
    let section = objects[i].sections[j];
    let new_group = extended(output, section, i, j);
    pe_section::section_alignment_is_power_of_two(section.characteristics);
    align::aligned_is_next_multiple(
        output.virtual_size as int,
        pe_section::section_alignment(section.characteristics),
    );
    let n = output.contributions.len() as int;
    assert(objects[i].sections.len() <= usize::MAX);
    let contributions = new_group.contributions;
    let fresh = contributions[n];
    assert(fresh.object_index == i && fresh.section_index == j);
    assert(source(objects, fresh) == section);
    assert(output.virtual_size == end_before(output.contributions, n));
    assert forall|c: int| 0 <= c < contributions.len() implies {
        let contribution = #[trigger] contributions[c];
        let section = source(objects, contribution);
        &&& has_section(
            objects,
            contribution.object_index as int,
            contribution.section_index as int,
        )
        &&& !pe_section::is_discarded(section)
        &&& belongs(new_group, section)
        &&& contribution.size == pe_section::section_extent(section)
        &&& contribution.output_offset == align::aligned(
            end_before(contributions, c),
            pe_section::section_alignment(section.characteristics),
        )
    } by {
        assert(end_before(contributions, c) == end_before(output.contributions, c));
        if c < n {
            assert(contributions[c] == output.contributions[c]);
        }
    }
    assert forall|c: int, d: int| 0 <= c < d < contributions.len() implies comes_before(
        (#[trigger] contributions[c]).object_index as int,
        contributions[c].section_index as int,
        (#[trigger] contributions[d]).object_index as int,
        contributions[d].section_index as int,
    ) by {
        assert(contributions[c] == output.contributions[c]);
        if d < n {
            assert(contributions[d] == output.contributions[d]);
        }
    }
}

/// One more section keeps what grouping keeps.
proof fn lemma_with_section(objects: Seq<ObjectView>, outputs: Seq<OutputView>, i: int, j: int)
    requires
        is_indexable(objects),
        has_section(objects, i, j),
        !pe_section::is_discarded(objects[i].sections[j]),
        holds_before(objects, outputs, i, j),
        with_section(outputs, objects[i].sections[j], i, j) is Ok,
    ensures
        holds_before(objects, with_section(outputs, objects[i].sections[j], i, j)->Ok_0, i, j + 1),
{
    let section = objects[i].sections[j];
    let g = group_from(outputs, section, 0);
    lemma_group_from(outputs, section, 0);
    let all = if g < outputs.len() {
        outputs
    } else {
        outputs.push(empty_output(section))
    };
    let n = all[g].contributions.len() as int;
    let new_group = extended(all[g], section, i, j);
    let result = all.update(g, new_group);
    assert(objects[i].sections.len() <= usize::MAX);
    assert(all_packed(objects, result)) by {
        reveal(all_packed);
        reveal(all_before);
        if g < outputs.len() {
            assert(is_packed(objects, outputs[g]));
        }
        assert forall|c: int| 0 <= c < all[g].contributions.len() implies comes_before(
            (#[trigger] all[g].contributions[c]).object_index as int,
            all[g].contributions[c].section_index as int,
            i,
            j,
        ) by {
            assert(outputs[g].contributions[c] == all[g].contributions[c]);
        }
        lemma_extended(objects, all[g], i, j);
        assert forall|k: int| 0 <= k < result.len() implies is_packed(
            objects,
            #[trigger] result[k],
        ) by {
            if k != g {
                assert(result[k] == outputs[k]);
            }
        }
    }
    assert(raw_sizes_follow(result)) by {
        reveal(raw_sizes_follow);
        assert forall|k: int| 0 <= k < result.len() implies (#[trigger] result[k]).raw_data_size
            == (if result[k].is_bss {
            0
        } else {
            result[k].virtual_size
        }) by {
            if k < outputs.len() {
                assert(outputs[k].raw_data_size == (if outputs[k].is_bss {
                    0
                } else {
                    outputs[k].virtual_size
                }));
            }
        }
    }
    assert(groups_differ(result)) by {
        reveal(groups_differ);
        assert forall|k: int, l: int| 0 <= k < l < result.len() implies !same_group(
            #[trigger] result[k],
            #[trigger] result[l],
        ) by {
            assert(same_group(result[k], all[k]));
            assert(same_group(result[l], all[l]));
            if l < outputs.len() {
                assert(!same_group(outputs[k], outputs[l]));
            } else {
                assert(!belongs(outputs[k], section));
            }
        }
    }
    assert(all_before(result, i, j + 1)) by {
        reveal(all_before);
        assert forall|k: int, c: int|
            0 <= k < result.len() && 0 <= c < result[k].contributions.len() implies comes_before(
            (#[trigger] result[k].contributions[c]).object_index as int,
            result[k].contributions[c].section_index as int,
            i,
            j + 1,
        ) by {
            if k != g || c < n {
                assert(result[k].contributions[c] == outputs[k].contributions[c]);
            }
        }
    }
    assert(all_placed(objects, result, i, j + 1)) by {
        reveal(all_placed);
        assert forall|a: int, b: int|
            has_section(objects, a, b) && comes_before(a, b, i, j + 1) && !pe_section::is_discarded(
                objects[a].sections[b],
            ) implies #[trigger] is_placed(result, a, b) by {
            if a == i && b == j {
                assert(result[g].contributions[n].object_index == i);
                assert(contributes(result, g, n, a, b));
            } else {
                assert(is_placed(outputs, a, b));
                let (k, c) = choose|k: int, c: int| #[trigger] contributes(outputs, k, c, a, b);
                assert(result[k].contributions[c] == outputs[k].contributions[c]);
                assert(contributes(result, k, c, a, b));
            }
        }
    }
}

/// Grouping puts every section that is not discarded in its one place.
pub proof fn lemma_grouped(objects: Seq<ObjectView>, i: int, j: int)
    requires
        is_indexable(objects),
        0 <= i <= objects.len(),
        i < objects.len() ==> 0 <= j <= objects[i].sections.len(),
        i == objects.len() ==> j == 0,
        grouped(objects, i, j) is Ok,
    ensures
        holds_before(objects, grouped(objects, i, j)->Ok_0, i, j),
    decreases i, j,
{
    let outputs = grouped(objects, i, j)->Ok_0;
    if j > 0 {
        lemma_grouped(objects, i, j - 1);
        let previous = grouped(objects, i, j - 1)->Ok_0;
        if pe_section::is_discarded(objects[i].sections[j - 1]) {
            assert(all_placed(objects, outputs, i, j)) by {
                reveal(all_placed);
            }
            assert(all_before(outputs, i, j)) by {
                reveal(all_before);
            }
        } else {
            lemma_with_section(objects, previous, i, j - 1);
        }
    } else if i > 0 {
        let last = objects[i - 1].sections.len() as int;
        lemma_grouped(objects, i - 1, last);
        assert(all_placed(objects, outputs, i, 0)) by {
            reveal(all_placed);
        }
        assert(all_before(outputs, i, 0)) by {
            reveal(all_before);
        }
    } else {
        reveal(all_packed);
        reveal(raw_sizes_follow);
        reveal(groups_differ);
        reveal(all_before);
        reveal(all_placed);
    }
}

// ---- what sorting keeps ----

/// Sorting neither adds nor removes a section.
pub proof fn sorting_keeps_sections(outputs: Seq<OutputView>)
    ensures
        sorted(outputs).to_multiset() == outputs.to_multiset(),
        sorted(outputs).len() == outputs.len(),
    decreases outputs.len(),
{
    broadcast use vstd::seq_lib::group_to_multiset_ensures;

    if outputs.len() == 0 {
        assert(outputs =~= Seq::<OutputView>::empty());
        lemma_sorted_empty();
    } else {
        let first = outputs[0];
        let rest = outputs.drop_first();
        sorting_keeps_sections(rest);
        assert(outputs =~= seq![first] + rest);
        lemma_buckets_prepend(first, rest, 11);
        let place = buckets_below(rest, pe_section::sort_key(first.name)).len() as int;
        vstd::seq_lib::to_multiset_insert(sorted(rest), place, first);
        assert(outputs =~= rest.insert(0, first));
        vstd::seq_lib::to_multiset_insert(rest, 0, first);
    }
}

/// Sorted sections come by rising sort key.
pub proof fn sorted_sections_are_ordered(outputs: Seq<OutputView>, k: int, l: int)
    requires
        0 <= k <= l < sorted(outputs).len(),
    ensures
        pe_section::sort_key(sorted(outputs)[k].name) <= pe_section::sort_key(
            sorted(outputs)[l].name,
        ),
{
    let low = pe_section::sort_key(sorted(outputs)[k].name);
    lemma_buckets_below(outputs, low, 11);
    let _ = sorted(outputs)[l];
}

/// Each sorted section is one of the sections, and the other way round.
proof fn lemma_sorted_contains(outputs: Seq<OutputView>)
    ensures
        forall|k: int|
            0 <= k < sorted(outputs).len() ==> outputs.contains(#[trigger] sorted(outputs)[k]),
        forall|k: int|
            0 <= k < outputs.len() ==> sorted(outputs).contains(#[trigger] outputs[k]),
{
    broadcast use vstd::seq_lib::to_multiset_contains;

    sorting_keeps_sections(outputs);
    assert forall|k: int| 0 <= k < sorted(outputs).len() implies outputs.contains(
        #[trigger] sorted(outputs)[k],
    ) by {
        assert(sorted(outputs).contains(sorted(outputs)[k]));
        assert(sorted(outputs).to_multiset().count(sorted(outputs)[k]) > 0);
        assert(outputs.to_multiset().count(sorted(outputs)[k]) > 0);
    }
    assert forall|k: int| 0 <= k < outputs.len() implies sorted(outputs).contains(
        #[trigger] outputs[k],
    ) by {
        assert(outputs.contains(outputs[k]));
        assert(outputs.to_multiset().count(outputs[k]) > 0);
        assert(sorted(outputs).to_multiset().count(outputs[k]) > 0);
    }
}

/// Sorting keeps what grouping keeps.
pub proof fn lemma_sorted(objects: Seq<ObjectView>, outputs: Seq<OutputView>, i: int, j: int)
    requires
        holds_before(objects, outputs, i, j),
    ensures
        holds_before(objects, sorted(outputs), i, j),
{
    let result = sorted(outputs);
    lemma_sorted_contains(outputs);
    assert(all_packed(objects, result)) by {
        reveal(all_packed);
        assert forall|k: int| 0 <= k < result.len() implies is_packed(
            objects,
            #[trigger] result[k],
        ) by {
            assert(outputs.contains(result[k]));
        }
    }
    assert(raw_sizes_follow(result)) by {
        reveal(raw_sizes_follow);
        assert forall|k: int| 0 <= k < result.len() implies (#[trigger] result[k]).raw_data_size
            == (if result[k].is_bss {
            0
        } else {
            result[k].virtual_size
        }) by {
            assert(outputs.contains(result[k]));
        }
    }
    assert(groups_differ(result)) by {
        reveal(groups_differ);
        assert(outputs.no_duplicates());
        outputs.lemma_multiset_has_no_duplicates();
        sorting_keeps_sections(outputs);
        result.lemma_multiset_has_no_duplicates_conv();
        assert forall|k: int, l: int| 0 <= k < l < result.len() implies !same_group(
            #[trigger] result[k],
            #[trigger] result[l],
        ) by {
            assert(outputs.contains(result[k]));
            assert(outputs.contains(result[l]));
            assert(result[k] != result[l]);
        }
    }
    assert(all_before(result, i, j)) by {
        reveal(all_before);
        assert forall|k: int, c: int|
            0 <= k < result.len() && 0 <= c < result[k].contributions.len() implies comes_before(
            (#[trigger] result[k].contributions[c]).object_index as int,
            result[k].contributions[c].section_index as int,
            i,
            j,
        ) by {
            assert(outputs.contains(result[k]));
            let l = choose|l: int| 0 <= l < outputs.len() && outputs[l] == result[k];
            assert(outputs[l].contributions[c] == result[k].contributions[c]);
        }
    }
    assert(all_placed(objects, result, i, j)) by {
        reveal(all_placed);
        assert forall|a: int, b: int|
            has_section(objects, a, b) && comes_before(a, b, i, j) && !pe_section::is_discarded(
                objects[a].sections[b],
            ) implies #[trigger] is_placed(result, a, b) by {
            assert(is_placed(outputs, a, b));
            let (k, c) = choose|k: int, c: int| #[trigger] contributes(outputs, k, c, a, b);
            assert(result.contains(outputs[k]));
            let l = choose|l: int| 0 <= l < result.len() && result[l] == outputs[k];
            assert(contributes(result, l, c, a, b));
        }
    }
}

// ---- the one place of a section ----

/// What `offset_among` finds is a contribution, and it finds one where there is one.
proof fn lemma_offset_among(contributions: Seq<SectionContribution>, n: int, i: int, j: int)
    requires
        0 <= n <= contributions.len(),
    ensures
        match offset_among(contributions, n, i, j) {
            Some(offset) => exists|c: int|
                #![trigger contributions[c]]
                0 <= c < n && contributions[c].object_index == i && contributions[c].section_index
                    == j && contributions[c].output_offset == offset,
            None => forall|c: int|
                0 <= c < n ==> !((#[trigger] contributions[c]).object_index == i
                    && contributions[c].section_index == j),
        },
    decreases n,
{
    if n > 0 && !(contributions[n - 1].object_index == i && contributions[n - 1].section_index
        == j) {
        lemma_offset_among(contributions, n - 1, i, j);
    }
}

/// What `home_among` finds is a contribution, and it finds one where there is one.
proof fn lemma_home_among(outputs: Seq<OutputView>, n: int, i: int, j: int)
    requires
        0 <= n <= outputs.len() <= usize::MAX,
    ensures
        match home_among(outputs, n, i, j) {
            Some((k, offset)) => k < n && exists|c: int| #[trigger]
                contributes(outputs, k as int, c, i, j)
                    && outputs[k as int].contributions[c].output_offset == offset,
            None => forall|k: int, c: int|
                0 <= k < n ==> !#[trigger] contributes(outputs, k, c, i, j),
        },
    decreases n,
{
    if n > 0 {
        let contributions = outputs[n - 1].contributions;
        lemma_offset_among(contributions, contributions.len() as int, i, j);
        match offset_among(contributions, contributions.len() as int, i, j) {
            Some(offset) => {
                let c = choose|c: int|
                    #![trigger contributions[c]]
                    0 <= c < contributions.len() && contributions[c].object_index == i
                        && contributions[c].section_index == j && contributions[c].output_offset
                        == offset;
                assert(contributes(outputs, n - 1, c, i, j));
            },
            None => {
                lemma_home_among(outputs, n - 1, i, j);
                if home_among(outputs, n - 1, i, j) is None {
                    assert forall|k: int, c: int| 0 <= k < n implies !#[trigger] contributes(
                        outputs,
                        k,
                        c,
                        i,
                        j,
                    ) by {
                        if k == n - 1 && 0 <= c < contributions.len() {
                            assert(!(contributions[c].object_index == i
                                && contributions[c].section_index == j));
                        }
                    }
                }
            },
        }
    }
}

/// A section has a place exactly if it is part of an output section, and the place is where it is.
pub proof fn lemma_home(outputs: Seq<OutputView>, i: int, j: int)
    requires
        outputs.len() <= usize::MAX,
    ensures
        home(outputs, i, j) is Some <==> is_placed(outputs, i, j),
        home(outputs, i, j) matches Some((k, offset)) ==> k < outputs.len() && exists|c: int|
            #[trigger]
            contributes(outputs, k as int, c, i, j)
                && outputs[k as int].contributions[c].output_offset == offset,
{
    lemma_home_among(outputs, outputs.len() as int, i, j);
}

} // verus!
