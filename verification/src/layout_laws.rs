//! What holds of every layout.
use crate::align;
use crate::error::LinkError;
use crate::input::ObjectView;
use crate::pe_grouping;
use crate::pe_layout;
use crate::pe_layout::LayoutView;
use crate::pe_section;
use crate::pe_section::OutputView;
use crate::pe_symbols;
use crate::pe_writer;
use vstd::prelude::*;

verus! {

/// The output sections of a layout before they were given their addresses.
pub open spec fn unplaced(objects: Seq<ObjectView>) -> Seq<OutputView> {
    pe_grouping::sorted(pe_grouping::groups(objects)->Ok_0)
}

/// Every part of an image whose layout succeeded has an address.
proof fn lemma_no_address_error(outputs: Seq<OutputView>, k: int, n: int)
    requires
        0 <= k <= n,
        pe_layout::address_error(outputs, n) is None,
    ensures
        pe_layout::address_error(outputs, k) is None,
    decreases n,
{
    if k < n {
        lemma_no_address_error(outputs, k, n - 1);
    }
}

/// Addresses in memory are multiples of the section alignment, lie behind the headers and fit in
/// 32 bits.
pub proof fn lemma_rva(outputs: Seq<OutputView>, k: int)
    requires
        0 <= k <= outputs.len(),
        pe_layout::address_error(outputs, outputs.len() as int) is None,
    ensures
        pe_layout::rva_at(outputs, k) % (pe_layout::SECTION_ALIGNMENT as int) == 0,
        pe_layout::headers_end(outputs.len() as int) <= pe_layout::rva_at(outputs, k) <= u32::MAX,
        k > 0 ==> pe_layout::rva_at(outputs, k - 1) + outputs[k - 1].virtual_size
            <= pe_layout::rva_at(outputs, k),
    decreases k,
{
    lemma_no_address_error(outputs, k, outputs.len() as int);
    let alignment = pe_layout::SECTION_ALIGNMENT as int;
    if k <= 0 {
        align::aligned_is_next_multiple(
            pe_layout::headers_end(outputs.len() as int),
            alignment,
        );
    } else {
        lemma_rva(outputs, k - 1);
        align::aligned_is_next_multiple(
            pe_layout::rva_at(outputs, k - 1) + outputs[k - 1].virtual_size,
            alignment,
        );
        assert(pe_layout::step_error(outputs, k - 1) is None);
    }
}

/// Places in the file are multiples of the file alignment, lie behind the headers and fit in 32
/// bits.
pub proof fn lemma_file(outputs: Seq<OutputView>, k: int)
    requires
        0 <= k <= outputs.len(),
        pe_layout::address_error(outputs, outputs.len() as int) is None,
    ensures
        pe_layout::file_at(outputs, k) % (pe_layout::FILE_ALIGNMENT as int) == 0,
        pe_layout::headers_end(outputs.len() as int) <= pe_layout::file_at(outputs, k) <= u32::MAX,
        k > 0 ==> pe_layout::file_at(outputs, k - 1) + pe_layout::file_extent(outputs[k - 1])
            == pe_layout::file_at(outputs, k),
        k > 0 ==> 0 <= pe_layout::file_extent(outputs[k - 1]) <= u32::MAX,
        k > 0 ==> pe_layout::file_extent(outputs[k - 1]) % (pe_layout::FILE_ALIGNMENT as int) == 0,
        k > 0 && !outputs[k - 1].is_bss ==> outputs[k - 1].raw_data_size
            <= pe_layout::file_extent(outputs[k - 1]),
    decreases k,
{
    lemma_no_address_error(outputs, k, outputs.len() as int);
    let alignment = pe_layout::FILE_ALIGNMENT as int;
    if k <= 0 {
        align::aligned_is_next_multiple(
            pe_writer::header_bytes(outputs.len() as int),
            alignment,
        );
    } else {
        lemma_file(outputs, k - 1);
        align::aligned_is_next_multiple(outputs[k - 1].raw_data_size as int, alignment);
        assert(pe_layout::step_error(outputs, k - 1) is None);
    }
}

/// What comes later in memory has a higher address.
proof fn lemma_rva_grows(outputs: Seq<OutputView>, k: int, l: int)
    requires
        0 <= k <= l <= outputs.len(),
        pe_layout::address_error(outputs, outputs.len() as int) is None,
    ensures
        pe_layout::rva_at(outputs, k) <= pe_layout::rva_at(outputs, l),
        k < l ==> pe_layout::rva_at(outputs, k) + outputs[k].virtual_size <= pe_layout::rva_at(
            outputs,
            l,
        ),
    decreases l,
{
    if k < l {
        lemma_rva(outputs, l);
        lemma_rva_grows(outputs, k, l - 1);
    }
}

/// What comes later in the file has a higher place.
proof fn lemma_file_grows(outputs: Seq<OutputView>, k: int, l: int)
    requires
        0 <= k <= l <= outputs.len(),
        pe_layout::address_error(outputs, outputs.len() as int) is None,
    ensures
        pe_layout::file_at(outputs, k) <= pe_layout::file_at(outputs, l),
        k < l ==> pe_layout::file_at(outputs, k) + pe_layout::file_extent(outputs[k])
            <= pe_layout::file_at(outputs, l),
    decreases l,
{
    if k < l {
        lemma_file(outputs, l);
        lemma_file_grows(outputs, k, l - 1);
    }
}

/// Whether the layout is the one that the objects give.
pub open spec fn is_layout_of(
    layout: LayoutView,
    base_address: Option<u64>,
    objects: Seq<ObjectView>,
) -> bool {
    &&& pe_grouping::is_indexable(objects)
    &&& pe_layout::layout_of(base_address, objects) == Ok::<LayoutView, LinkError>(layout)
}

/// A section starts in memory at a multiple of the section alignment, behind the headers, and ends
/// inside of the image.
pub proof fn section_lies_in_image(
    base_address: Option<u64>,
    objects: Seq<ObjectView>,
    layout: LayoutView,
    k: int,
)
    requires
        is_layout_of(layout, base_address, objects),
        0 <= k < layout.sections.len(),
    ensures
        layout.sections[k].virtual_address % pe_layout::SECTION_ALIGNMENT == 0,
        0 < layout.size_of_headers <= layout.sections[k].virtual_address,
        layout.sections[k].virtual_address + layout.sections[k].virtual_size
            <= layout.size_of_image,
{
    let outputs = unplaced(objects);
    lemma_rva(outputs, k);
    lemma_rva(outputs, outputs.len() as int);
    lemma_rva_grows(outputs, k, outputs.len() as int);
    lemma_file(outputs, 0);
    headers_come_first(base_address, objects, layout);
}

/// A section that has contents starts in the file at a multiple of the file alignment, behind the
/// headers, ends inside of the file, and has room there for all of its contents; one that only
/// takes up memory has no bytes in the file.
pub proof fn section_lies_in_file(
    base_address: Option<u64>,
    objects: Seq<ObjectView>,
    layout: LayoutView,
    k: int,
)
    requires
        is_layout_of(layout, base_address, objects),
        0 <= k < layout.sections.len(),
    ensures
        layout.sections[k].is_bss ==> layout.sections[k].raw_data_size == 0
            && layout.sections[k].file_offset == 0,
        !layout.sections[k].is_bss ==> {
            &&& layout.sections[k].file_offset % pe_layout::FILE_ALIGNMENT == 0
            &&& layout.sections[k].raw_data_size % pe_layout::FILE_ALIGNMENT == 0
            &&& layout.size_of_headers <= layout.sections[k].file_offset
            &&& layout.sections[k].virtual_size <= layout.sections[k].raw_data_size
            &&& layout.sections[k].file_offset + layout.sections[k].raw_data_size
                <= layout.file_size
        },
{
    let outputs = unplaced(objects);
    lemma_kept(base_address, objects, layout);
    reveal(pe_grouping::raw_sizes_follow);
    assert(outputs[k].raw_data_size == (if outputs[k].is_bss {
        0
    } else {
        outputs[k].virtual_size
    }));
    lemma_file(outputs, 0);
    lemma_file(outputs, k);
    lemma_file(outputs, k + 1);
    lemma_file(outputs, outputs.len() as int);
    lemma_file_grows(outputs, k, outputs.len() as int);
}

/// Sections neither overlap in memory nor, if they have contents, in the file.
pub proof fn sections_are_apart(
    base_address: Option<u64>,
    objects: Seq<ObjectView>,
    layout: LayoutView,
    k: int,
    l: int,
)
    requires
        is_layout_of(layout, base_address, objects),
        0 <= k < l < layout.sections.len(),
    ensures
        layout.sections[k].virtual_address + layout.sections[k].virtual_size
            <= layout.sections[l].virtual_address,
        !layout.sections[k].is_bss && !layout.sections[l].is_bss ==> layout.sections[k].file_offset
            + layout.sections[k].raw_data_size <= layout.sections[l].file_offset,
{
    let outputs = unplaced(objects);
    lemma_rva(outputs, k);
    lemma_rva(outputs, l);
    lemma_rva_grows(outputs, k, l);
    lemma_file(outputs, k);
    lemma_file(outputs, k + 1);
    lemma_file(outputs, l);
    lemma_file_grows(outputs, k, l);
}

/// Sections come by rising sort key, and no two of them agree on name, flags and on whether they
/// only take up memory.
pub proof fn sections_are_ordered(
    base_address: Option<u64>,
    objects: Seq<ObjectView>,
    layout: LayoutView,
    k: int,
    l: int,
)
    requires
        is_layout_of(layout, base_address, objects),
        0 <= k < l < layout.sections.len(),
    ensures
        pe_section::sort_key(layout.sections[k].name) <= pe_section::sort_key(
            layout.sections[l].name,
        ),
        !pe_grouping::same_group(layout.sections[k], layout.sections[l]),
{
    let outputs = unplaced(objects);
    pe_grouping::sorted_sections_are_ordered(pe_grouping::groups(objects)->Ok_0, k, l);
    lemma_kept(base_address, objects, layout);
    reveal(pe_grouping::groups_differ);
    assert(!pe_grouping::same_group(outputs[k], outputs[l]));
}

/// The output sections of a layout keep what grouping keeps.
pub proof fn lemma_kept(base_address: Option<u64>, objects: Seq<ObjectView>, layout: LayoutView)
    requires
        is_layout_of(layout, base_address, objects),
    ensures
        pe_grouping::holds_before(objects, unplaced(objects), objects.len() as int, 0),
        layout.sections.len() == unplaced(objects).len(),
{
    pe_grouping::lemma_grouped(objects, objects.len() as int, 0);
    pe_grouping::lemma_sorted(
        objects,
        pe_grouping::groups(objects)->Ok_0,
        objects.len() as int,
        0,
    );
}

/// The parts of a section lie one behind the other without overlap and end where the section ends;
/// each starts at a multiple of the alignment that its input section asks for.
pub proof fn contributions_are_apart(
    base_address: Option<u64>,
    objects: Seq<ObjectView>,
    layout: LayoutView,
    k: int,
    c: int,
)
    requires
        is_layout_of(layout, base_address, objects),
        0 <= k < layout.sections.len(),
        0 <= c < layout.sections[k].contributions.len(),
    ensures
        ({
            let contributions = layout.sections[k].contributions;
            let section = pe_grouping::source(objects, contributions[c]);
            &&& contributions[c].output_offset as int % pe_section::section_alignment(
                section.characteristics,
            ) == 0
            &&& contributions[c].size == pe_section::section_extent(section)
            &&& forall|d: int|
                c < d < contributions.len() ==> contributions[c].output_offset
                    + contributions[c].size <= (#[trigger] contributions[d]).output_offset
            &&& contributions[c].output_offset + contributions[c].size
                <= layout.sections[k].virtual_size
            &&& contributions.last().output_offset + contributions.last().size
                == layout.sections[k].virtual_size
        }),
{
    lemma_kept(base_address, objects, layout);
    let outputs = unplaced(objects);
    reveal(pe_grouping::all_packed);
    assert(pe_grouping::is_packed(objects, outputs[k]));
    let contributions = outputs[k].contributions;
    let section = pe_grouping::source(objects, contributions[c]);
    pe_section::section_alignment_is_power_of_two(section.characteristics);
    align::aligned_is_next_multiple(
        pe_grouping::end_before(contributions, c),
        pe_section::section_alignment(section.characteristics),
    );
    assert forall|d: int| c < d < contributions.len() implies contributions[c].output_offset
        + contributions[c].size <= (#[trigger] contributions[d]).output_offset by {
        lemma_packed_apart(objects, outputs[k], c, d);
    }
    if c + 1 < contributions.len() {
        let _ = contributions[contributions.len() - 1];
    }
}

/// Parts of a packed section lie apart.
proof fn lemma_packed_apart(objects: Seq<ObjectView>, output: OutputView, c: int, d: int)
    requires
        pe_grouping::is_packed(objects, output),
        0 <= c < d < output.contributions.len(),
    ensures
        output.contributions[c].output_offset + output.contributions[c].size
            <= output.contributions[d].output_offset,
    decreases d,
{
    let contributions = output.contributions;
    let section = pe_grouping::source(objects, contributions[d]);
    pe_section::section_alignment_is_power_of_two(section.characteristics);
    align::aligned_is_next_multiple(
        pe_grouping::end_before(contributions, d),
        pe_section::section_alignment(section.characteristics),
    );
    if c < d - 1 {
        lemma_packed_apart(objects, output, c, d - 1);
    }
}

/// A section that is part of the output is one part of one output section: the one that its name
/// and flags call for, at the offset that it is told.
pub proof fn kept_sections_have_one_place(
    base_address: Option<u64>,
    objects: Seq<ObjectView>,
    layout: LayoutView,
    i: int,
    j: int,
)
    requires
        is_layout_of(layout, base_address, objects),
        pe_grouping::has_section(objects, i, j),
        !pe_section::is_discarded(objects[i].sections[j]),
    ensures
        layout.objects[i].sections[j].output_section is Some,
        ({
            let k = layout.objects[i].sections[j].output_section->0 as int;
            &&& k < layout.sections.len()
            &&& pe_grouping::belongs(layout.sections[k], objects[i].sections[j])
            &&& exists|c: int|
                #[trigger] pe_grouping::contributes(layout.sections, k, c, i, j)
                    && layout.sections[k].contributions[c].output_offset
                    == layout.objects[i].sections[j].output_offset
        }),
        forall|k: int, c: int, l: int, d: int|
            pe_grouping::contributes(layout.sections, k, c, i, j) && pe_grouping::contributes(
                layout.sections,
                l,
                d,
                i,
                j,
            ) ==> k == l && c == d,
{
    lemma_kept(base_address, objects, layout);
    let outputs = unplaced(objects);
    let section = objects[i].sections[j];
    sections_are_few(base_address, objects, layout);
    pe_grouping::lemma_home(outputs, i, j);
    assert(pe_grouping::is_placed(outputs, i, j)) by {
        reveal(pe_grouping::all_placed);
    }
    let (k, offset) = pe_grouping::home(outputs, i, j)->0;
    let c = choose|c: int|
        #[trigger] pe_grouping::contributes(outputs, k as int, c, i, j)
            && outputs[k as int].contributions[c].output_offset == offset;
    assert(pe_grouping::contributes(layout.sections, k as int, c, i, j));
    assert(pe_grouping::belongs(outputs[k as int], section)) by {
        reveal(pe_grouping::all_packed);
        assert(pe_grouping::is_packed(objects, outputs[k as int]));
        let contribution = outputs[k as int].contributions[c];
        assert(pe_grouping::belongs(
            outputs[k as int],
            pe_grouping::source(objects, contribution),
        ));
    }
    assert forall|k: int, c: int, l: int, d: int|
        pe_grouping::contributes(layout.sections, k, c, i, j) && pe_grouping::contributes(
            layout.sections,
            l,
            d,
            i,
            j,
        ) implies k == l && c == d by {
        lemma_one_place(objects, outputs, i, j, k, c, l, d);
    }
}

/// Two parts that stand for one input section are one.
proof fn lemma_one_place(
    objects: Seq<ObjectView>,
    outputs: Seq<OutputView>,
    i: int,
    j: int,
    k: int,
    c: int,
    l: int,
    d: int,
)
    requires
        pe_grouping::all_packed(objects, outputs),
        pe_grouping::groups_differ(outputs),
        pe_grouping::contributes(outputs, k, c, i, j),
        pe_grouping::contributes(outputs, l, d, i, j),
    ensures
        k == l,
        c == d,
{
    reveal(pe_grouping::all_packed);
    reveal(pe_grouping::groups_differ);
    assert(pe_grouping::is_packed(objects, outputs[k]));
    assert(pe_grouping::is_packed(objects, outputs[l]));
    let first = outputs[k].contributions[c];
    let second = outputs[l].contributions[d];
    assert(pe_grouping::source(objects, first) == pe_grouping::source(objects, second));
    assert(pe_grouping::belongs(outputs[k], pe_grouping::source(objects, first)));
    assert(pe_grouping::belongs(outputs[l], pe_grouping::source(objects, second)));
    assert(pe_grouping::same_group(outputs[k], outputs[l]));
    assert(pe_grouping::same_group(outputs[l], outputs[k]));
    if k < l {
        assert(!pe_grouping::same_group(outputs[k], outputs[l]));
    } else if l < k {
        assert(!pe_grouping::same_group(outputs[l], outputs[k]));
    }
}

/// No section is empty.
proof fn lemma_not_empty(objects: Seq<ObjectView>, outputs: Seq<OutputView>, k: int)
    requires
        0 <= k < outputs.len(),
        pe_grouping::all_packed(objects, outputs),
    ensures
        outputs[k].virtual_size > 0,
{
    reveal(pe_grouping::all_packed);
    let output = outputs[k];
    assert(pe_grouping::is_packed(objects, output));
    let last = output.contributions[output.contributions.len() - 1];
    assert(!pe_section::is_discarded(pe_grouping::source(objects, last)));
}

/// Each section takes up at least one unit of the section alignment.
proof fn lemma_rva_spread(objects: Seq<ObjectView>, outputs: Seq<OutputView>, k: int)
    requires
        0 <= k <= outputs.len(),
        pe_grouping::all_packed(objects, outputs),
        pe_layout::address_error(outputs, outputs.len() as int) is None,
    ensures
        0x1000 * k <= pe_layout::rva_at(outputs, k),
    decreases k,
{
    lemma_rva(outputs, k);
    if k > 0 {
        lemma_rva_spread(objects, outputs, k - 1);
        lemma_rva(outputs, k - 1);
        lemma_not_empty(objects, outputs, k - 1);
        let low = pe_layout::rva_at(outputs, k - 1);
        let high = pe_layout::rva_at(outputs, k);
        assert(low + 0x1000 <= high) by (nonlinear_arith)
            requires
                low % 0x1000 == 0,
                high % 0x1000 == 0,
                low < high,
        ;
    }
}

/// An image has fewer than two to the twentieth sections, so that the headers count each of them.
pub proof fn sections_are_few(
    base_address: Option<u64>,
    objects: Seq<ObjectView>,
    layout: LayoutView,
)
    requires
        is_layout_of(layout, base_address, objects),
    ensures
        layout.sections.len() < 0x10_0000,
        pe_writer::header_bytes(layout.sections.len() as int) == pe_writer::section_header_at(
            layout.sections.len() as int,
        ),
{
    lemma_kept(base_address, objects, layout);
    let outputs = unplaced(objects);
    lemma_rva_spread(objects, outputs, outputs.len() as int);
    lemma_rva(outputs, outputs.len() as int);
}

/// A discarded section stays as it is: it has no place in the output, and no output section has a
/// part that stands for it.
pub proof fn discarded_sections_have_no_place(
    base_address: Option<u64>,
    objects: Seq<ObjectView>,
    layout: LayoutView,
    i: int,
    j: int,
)
    requires
        is_layout_of(layout, base_address, objects),
        pe_grouping::has_section(objects, i, j),
        pe_section::is_discarded(objects[i].sections[j]),
    ensures
        layout.objects[i].sections[j] == objects[i].sections[j],
        layout.objects[i].sections[j].output_section is None,
        forall|k: int, c: int| !#[trigger] pe_grouping::contributes(layout.sections, k, c, i, j),
{
    lemma_kept(base_address, objects, layout);
    let outputs = unplaced(objects);
    assert(!pe_layout::is_false_claim(objects, i, j));
    assert forall|k: int, c: int| !#[trigger] pe_grouping::contributes(
        layout.sections,
        k,
        c,
        i,
        j,
    ) by {
        if pe_grouping::contributes(layout.sections, k, c, i, j) {
            reveal(pe_grouping::all_packed);
            assert(pe_grouping::is_packed(objects, outputs[k]));
            let contribution = outputs[k].contributions[c];
            assert(!pe_section::is_discarded(pe_grouping::source(objects, contribution)));
        }
    }
}

/// Only the places of the sections are new in the objects of a layout.
pub proof fn objects_stay(
    base_address: Option<u64>,
    objects: Seq<ObjectView>,
    layout: LayoutView,
    i: int,
)
    requires
        is_layout_of(layout, base_address, objects),
        0 <= i < objects.len(),
    ensures
        layout.objects.len() == objects.len(),
        layout.objects[i].path == objects[i].path,
        layout.objects[i].symbols == objects[i].symbols,
        layout.objects[i].sections.len() == objects[i].sections.len(),
        forall|j: int|
            0 <= j < objects[i].sections.len() ==> (#[trigger] layout.objects[i].sections[j])
                == pe_grouping::with_output(
                objects[i].sections[j],
                layout.objects[i].sections[j].output_section,
                layout.objects[i].sections[j].output_offset,
            ),
{
}

/// A layout is consistent: the places, symbols and addresses that it speaks of exist, and so do
/// the input sections that its output sections are made of.
pub proof fn layouts_are_consistent(
    base_address: Option<u64>,
    objects: Seq<ObjectView>,
    layout: LayoutView,
)
    requires
        is_layout_of(layout, base_address, objects),
    ensures
        pe_symbols::is_consistent(layout),
        pe_writer::contributions_exist(layout),
{
    lemma_kept(base_address, objects, layout);
    let outputs = unplaced(objects);
    assert forall|i: int, j: int|
        pe_grouping::has_section(layout.objects, i, j) implies match (
    #[trigger] layout.objects[i].sections[j]).output_section {
        Some(k) => k < layout.sections.len(),
        None => true,
    } by {
        assert(pe_grouping::has_section(objects, i, j));
        if pe_section::is_discarded(objects[i].sections[j]) {
            discarded_sections_have_no_place(base_address, objects, layout, i, j);
        } else {
            kept_sections_have_one_place(base_address, objects, layout, i, j);
        }
    }
    assert forall|k: int, c: int|
        0 <= k < layout.sections.len() && 0 <= c
            < layout.sections[k].contributions.len() implies pe_grouping::has_section(
        layout.objects,
        (#[trigger] layout.sections[k].contributions[c]).object_index as int,
        layout.sections[k].contributions[c].section_index as int,
    ) by {
        reveal(pe_grouping::all_packed);
        assert(pe_grouping::is_packed(objects, outputs[k]));
        let contribution = outputs[k].contributions[c];
        assert(pe_grouping::has_section(
            objects,
            contribution.object_index as int,
            contribution.section_index as int,
        ));
    }
}

/// The headers take up the front of the file: they hold one header for each section, end at a
/// multiple of the file alignment, and both the file and the image are at least as long.
pub proof fn headers_come_first(
    base_address: Option<u64>,
    objects: Seq<ObjectView>,
    layout: LayoutView,
)
    requires
        is_layout_of(layout, base_address, objects),
    ensures
        pe_writer::header_bytes(layout.sections.len() as int) <= layout.size_of_headers,
        layout.size_of_headers % pe_layout::FILE_ALIGNMENT == 0,
        layout.size_of_headers <= layout.file_size <= u32::MAX,
        layout.size_of_headers <= layout.size_of_image,
{
    let outputs = unplaced(objects);
    align::aligned_is_next_multiple(
        pe_writer::header_bytes(outputs.len() as int),
        pe_layout::FILE_ALIGNMENT as int,
    );
    lemma_file(outputs, 0);
    lemma_file(outputs, outputs.len() as int);
    lemma_rva(outputs, outputs.len() as int);
}

/// The name of a section has eight bytes.
pub proof fn names_have_eight_bytes(
    base_address: Option<u64>,
    objects: Seq<ObjectView>,
    layout: LayoutView,
    k: int,
)
    requires
        is_layout_of(layout, base_address, objects),
        0 <= k < layout.sections.len(),
    ensures
        layout.sections[k].name.len() == 8,
{
    lemma_kept(base_address, objects, layout);
    let outputs = unplaced(objects);
    reveal(pe_grouping::all_packed);
    assert(pe_grouping::is_packed(objects, outputs[k]));
    let first = outputs[k].contributions[0];
    assert(pe_grouping::belongs(outputs[k], pe_grouping::source(objects, first)));
}

} // verus!
