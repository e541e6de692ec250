//! What every layout has room for, and which error says that there is none.
use crate::align;
use crate::error::LinkError;
use crate::input::{ObjectView, SectionView};
use crate::pe_grouping;
use crate::pe_layout;
use crate::pe_layout::LayoutView;
use crate::pe_section;
use crate::pe_section::{OutputView, SectionContribution};
use crate::pe_writer;
use crate::placement_laws;
use vstd::prelude::*;

verus! {

// ---- room in an output section ----

/// Whether an input section goes into an output section: their names agree up to the dollar sign,
/// and so do the flags that say what they hold and what can be done with it.
pub open spec fn takes(output: OutputView, section: SectionView) -> bool {
    &&& output.name == pe_section::output_name(section.name)
    &&& output.characteristics == section.characteristics & 0xE000_00E0
    &&& output.is_bss <==> section.characteristics & 0x80 != 0
}

/// The first output section that takes an input section.
proof fn lemma_first_group(outputs: Seq<OutputView>, section: SectionView, from: int, g: int)
    requires
        0 <= from <= g <= outputs.len(),
        forall|k: int| from <= k < g ==> !takes(#[trigger] outputs[k], section),
        g < outputs.len() ==> takes(outputs[g], section),
    ensures
        pe_grouping::group_from(outputs, section, from) == g,
    decreases g - from,
{
    placement_laws::sections_are_kept_by_flags_and_size(section);
    if from < g {
        assert(!takes(outputs[from], section));
        lemma_first_group(outputs, section, from + 1, g);
    }
}

/// An input section goes behind what the first output section that takes it already has, or into a
/// new one at the end. It starts at the next multiple of its alignment. It fails where the alignment
/// alone leaves the range of 32 bits, or else where its end does; there is no other failure.
pub proof fn sections_need_room_in_their_output(
    outputs: Seq<OutputView>,
    section: SectionView,
    object_index: int,
    section_index: int,
    g: int,
    start: int,
)
    requires
        0 <= g <= outputs.len(),
        forall|k: int| 0 <= k < g ==> !takes(#[trigger] outputs[k], section),
        g < outputs.len() ==> takes(outputs[g], section),
        start % pe_section::section_alignment(section.characteristics) == 0,
        0 <= start - (if g < outputs.len() {
            outputs[g].virtual_size as int
        } else {
            0
        }) < pe_section::section_alignment(section.characteristics),
    ensures
        ({
            let used = if g < outputs.len() {
                outputs[g].virtual_size as int
            } else {
                0
            };
            let alignment = pe_section::section_alignment(section.characteristics);
            let end = start + placement_laws::extent(section);
            let r = pe_grouping::with_section(outputs, section, object_index, section_index);
            &&& used + alignment > 0xFFFF_FFFF ==> r == Err::<Seq<OutputView>, LinkError>(
                LinkError::ArithmeticOverflow,
            )
            &&& used + alignment <= 0xFFFF_FFFF < end ==> r == Err::<Seq<OutputView>, LinkError>(
                LinkError::SectionSizeOverflow,
            )
            &&& used + alignment <= 0xFFFF_FFFF && end <= 0xFFFF_FFFF ==> {
                &&& r is Ok
                &&& r->Ok_0.len() == if g < outputs.len() {
                    outputs.len()
                } else {
                    outputs.len() + 1
                }
                &&& forall|k: int|
                    0 <= k < outputs.len() && k != g ==> #[trigger] r->Ok_0[k] == outputs[k]
                &&& takes(r->Ok_0[g], section)
                &&& r->Ok_0[g].virtual_size == end
                &&& r->Ok_0[g].raw_data_size == if section.characteristics & 0x80 == 0 {
                    end
                } else if g < outputs.len() {
                    outputs[g].raw_data_size as int
                } else {
                    0
                }
            }
        }),
{
    lemma_first_group(outputs, section, 0, g);
    placement_laws::sections_are_kept_by_flags_and_size(section);
    pe_section::section_alignment_is_power_of_two(section.characteristics);
    let alignment = pe_section::section_alignment(section.characteristics);
    let all = pe_grouping::with_group(outputs, section);
    let used = all[g].virtual_size as int;
    lemma_next_multiple(used, alignment, start);
}

/// There is one multiple that comes next.
proof fn lemma_next_multiple(value: int, alignment: int, multiple: int)
    requires
        alignment > 0,
        multiple % alignment == 0,
        value <= multiple < value + alignment,
    ensures
        align::aligned(value, alignment) == multiple,
{
    align::aligned_is_next_multiple(value, alignment);
    align::aligned_is_least_multiple(value, alignment, multiple);
    let a = align::aligned(value, alignment);
    if a < multiple {
        let p = a / alignment;
        let q = multiple / alignment;
        assert(a == p * alignment && multiple == q * alignment) by (nonlinear_arith)
            requires
                alignment > 0,
                a % alignment == 0,
                multiple % alignment == 0,
                p == a / alignment,
                q == multiple / alignment,
        ;
        assert(multiple >= a + alignment) by (nonlinear_arith)
            requires
                alignment > 0,
                a == p * alignment,
                multiple == q * alignment,
                a < multiple,
        ;
    }
}

/// Where a section that is not left out finds no room, there is no layout, and the error is that of
/// the first such section.
pub proof fn layouts_fail_with_the_first_section_that_has_no_room(
    base_address: Option<u64>,
    objects: Seq<ObjectView>,
    i: int,
    j: int,
    e: LinkError,
)
    requires
        0 <= i < objects.len(),
        0 <= j < objects[i].sections.len(),
        !placement_laws::is_left_out(objects[i].sections[j]),
        pe_grouping::grouped(objects, i, j) is Ok,
        pe_grouping::with_section(
            pe_grouping::grouped(objects, i, j)->Ok_0,
            objects[i].sections[j],
            i,
            j,
        ) == Err::<Seq<OutputView>, LinkError>(e),
    ensures
        pe_layout::layout_of(base_address, objects) == Err::<LayoutView, LinkError>(e),
{
    placement_laws::sections_are_kept_by_flags_and_size(objects[i].sections[j]);
    assert(pe_grouping::grouped(objects, i, j + 1) == Err::<Seq<OutputView>, LinkError>(e));
    pe_grouping::lemma_grouped_error(objects, i, j + 1);
}

// ---- room in memory and in the file ----

/// The next multiple of 512.
pub open spec fn blocks(n: int) -> int {
    (n + 511) / 512 * 512
}

/// The next multiple of 4096.
pub open spec fn pages(n: int) -> int {
    (n + 4095) / 4096 * 4096
}

/// Where the headers of so many sections end.
pub open spec fn headers(num_sections: int) -> int {
    blocks(328 + 40 * num_sections)
}

/// Where the first `k` sections end in memory.
pub open spec fn memory(outputs: Seq<OutputView>, k: int) -> int
    decreases k,
{
    if k <= 0 {
        pages(headers(outputs.len() as int))
    } else {
        pages(memory(outputs, k - 1) + outputs[k - 1].virtual_size)
    }
}

/// Where the first `k` sections end in the file.
pub open spec fn file(outputs: Seq<OutputView>, k: int) -> int
    decreases k,
{
    if k <= 0 {
        headers(outputs.len() as int)
    } else if outputs[k - 1].is_bss {
        file(outputs, k - 1)
    } else {
        file(outputs, k - 1) + blocks(outputs[k - 1].raw_data_size as int)
    }
}

/// Whether there is room for the headers.
pub open spec fn headers_fit(outputs: Seq<OutputView>) -> bool {
    &&& 328 + 40 * outputs.len() + 512 <= 0xFFFF_FFFF
    &&& headers(outputs.len() as int) + 4096 <= 0xFFFF_FFFF
}

/// Whether there is room for the `k`-th section.
pub open spec fn section_fits(outputs: Seq<OutputView>, k: int) -> bool {
    &&& !outputs[k].is_bss ==> outputs[k].raw_data_size + 512 <= 0xFFFF_FFFF
    &&& !outputs[k].is_bss ==> file(outputs, k + 1) <= 0xFFFF_FFFF
    &&& memory(outputs, k) + outputs[k].virtual_size + 4096 <= 0xFFFF_FFFF
}

/// The ends are those that sections are placed by.
proof fn lemma_ends(outputs: Seq<OutputView>, k: int)
    requires
        outputs.len() < 0x1_0000_0000,
        k <= outputs.len(),
    ensures
        pe_layout::rva_at(outputs, k) == memory(outputs, k),
        pe_layout::file_at(outputs, k) == file(outputs, k),
        pe_layout::headers_end(outputs.len() as int) == headers(outputs.len() as int),
    decreases k,
{
    if k > 0 {
        lemma_ends(outputs, k - 1);
    }
}

/// No error in front of the `k`-th section.
proof fn lemma_no_error(outputs: Seq<OutputView>, k: int)
    requires
        outputs.len() < 0x1_0000_0000,
        0 <= k <= outputs.len(),
        headers_fit(outputs),
        forall|l: int| 0 <= l < k ==> #[trigger] section_fits(outputs, l),
    ensures
        pe_layout::address_error(outputs, k) is None,
    decreases k,
{
    lemma_ends(outputs, 0);
    if k > 0 {
        lemma_no_error(outputs, k - 1);
        assert(section_fits(outputs, k - 1));
        lemma_ends(outputs, k - 1);
        lemma_ends(outputs, k);
    }
}

/// An error stays.
proof fn lemma_error_stays(outputs: Seq<OutputView>, k: int, n: int)
    requires
        0 <= k <= n,
        pe_layout::address_error(outputs, k) is Some,
    ensures
        pe_layout::address_error(outputs, n) == pe_layout::address_error(outputs, k),
    decreases n,
{
    if k < n {
        lemma_error_stays(outputs, k, n - 1);
    }
}

/// The objects can be grouped to these output sections, and none of their sections that are left out
/// claims a place.
pub open spec fn can_be_placed(objects: Seq<ObjectView>, outputs: Seq<OutputView>) -> bool {
    &&& pe_grouping::groups(objects) is Ok
    &&& outputs == pe_grouping::sorted(pe_grouping::groups(objects)->Ok_0)
    &&& outputs.len() < 0x1_0000_0000
    &&& forall|i: int, j: int|
        0 <= i < objects.len() && 0 <= j < objects[i].sections.len()
            && placement_laws::is_left_out(#[trigger] objects[i].sections[j])
            ==> objects[i].sections[j].output_section is None
}

/// A layout whose sections can be placed comes to what placing them comes to.
proof fn lemma_layout(
    base_address: Option<u64>,
    objects: Seq<ObjectView>,
    outputs: Seq<OutputView>,
)
    requires
        can_be_placed(objects, outputs),
    ensures
        match pe_layout::address_error(outputs, outputs.len() as int) {
            Some(e) => pe_layout::layout_of(base_address, objects) == Err::<LayoutView, LinkError>(
                e,
            ),
            None => pe_layout::layout_of(base_address, objects) is Ok,
        },
{
    assert forall|i: int, j: int| !pe_layout::is_false_claim(objects, i, j) by {
        if pe_grouping::has_section(objects, i, j) {
            placement_laws::sections_are_kept_by_flags_and_size(objects[i].sections[j]);
        }
    }
}

/// There is a layout exactly where the headers and all sections fit: headers and sections, rounded
/// up to whole blocks in the file and to whole pages in memory, stay in the range of 32 bits.
pub proof fn layouts_have_room_for_all(
    base_address: Option<u64>,
    objects: Seq<ObjectView>,
    outputs: Seq<OutputView>,
)
    requires
        can_be_placed(objects, outputs),
    ensures
        pe_layout::layout_of(base_address, objects) is Ok <==> headers_fit(outputs) && forall|l: int|
            0 <= l < outputs.len() ==> #[trigger] section_fits(outputs, l),
{
    let n = outputs.len() as int;
    lemma_layout(base_address, objects, outputs);
    if headers_fit(outputs) && forall|l: int|
        0 <= l < n ==> #[trigger] section_fits(outputs, l) {
        lemma_no_error(outputs, n);
    } else if !headers_fit(outputs) {
        headers_without_room_are_an_overflow(base_address, objects, outputs);
    } else {
        let k = lemma_first_unfit(outputs, n);
        sections_without_room_say_where(base_address, objects, outputs, k);
    }
}

/// There is a first section that does not fit, if there is any.
proof fn lemma_first_unfit(outputs: Seq<OutputView>, n: int) -> (k: int)
    requires
        0 <= n,
        exists|l: int| 0 <= l < n && !#[trigger] section_fits(outputs, l),
    ensures
        0 <= k < n,
        !section_fits(outputs, k),
        forall|l: int| 0 <= l < k ==> #[trigger] section_fits(outputs, l),
    decreases n,
{
    if exists|l: int| 0 <= l < n - 1 && !#[trigger] section_fits(outputs, l) {
        lemma_first_unfit(outputs, n - 1)
    } else {
        n - 1
    }
}

/// Headers that have no room are an arithmetic overflow.
pub proof fn headers_without_room_are_an_overflow(
    base_address: Option<u64>,
    objects: Seq<ObjectView>,
    outputs: Seq<OutputView>,
)
    requires
        can_be_placed(objects, outputs),
        !headers_fit(outputs),
    ensures
        pe_layout::layout_of(base_address, objects) == Err::<LayoutView, LinkError>(
            LinkError::ArithmeticOverflow,
        ),
{
    lemma_layout(base_address, objects, outputs);
    lemma_ends(outputs, 0);
    lemma_error_stays(outputs, 0, outputs.len() as int);
}

/// The first section that has no room says what it has no room in: its contents are looked at first,
/// then the file, then the memory.
pub proof fn sections_without_room_say_where(
    base_address: Option<u64>,
    objects: Seq<ObjectView>,
    outputs: Seq<OutputView>,
    k: int,
)
    requires
        can_be_placed(objects, outputs),
        headers_fit(outputs),
        0 <= k < outputs.len(),
        forall|l: int| 0 <= l < k ==> #[trigger] section_fits(outputs, l),
        !section_fits(outputs, k),
    ensures
        pe_layout::layout_of(base_address, objects) == Err::<LayoutView, LinkError>(
            if !outputs[k].is_bss && outputs[k].raw_data_size + 512 > 0xFFFF_FFFF {
                LinkError::ArithmeticOverflow
            } else if !outputs[k].is_bss && file(outputs, k + 1) > 0xFFFF_FFFF {
                LinkError::FileSizeOverflow
            } else if memory(outputs, k) + outputs[k].virtual_size > 0xFFFF_FFFF {
                LinkError::ImageSizeOverflow
            } else {
                LinkError::ArithmeticOverflow
            },
        ),
{
    lemma_layout(base_address, objects, outputs);
    lemma_no_error(outputs, k);
    lemma_ends(outputs, k);
    lemma_ends(outputs, k + 1);
    assert(pe_layout::address_error(outputs, k + 1) == pe_layout::step_error(outputs, k));
    lemma_error_stays(outputs, k + 1, outputs.len() as int);
}

// ---- room in the buffer ----

/// A part of an output section that does not lie in the buffer is an error that names it.
pub proof fn parts_need_room_in_the_buffer(
    buf: Seq<u8>,
    layout: LayoutView,
    output: OutputView,
    part: SectionContribution,
)
    requires
        output.file_offset + part.output_offset <= usize::MAX,
    ensures
        ({
            let data = placement_laws::origin(layout.objects, part).data;
            let copied = if data.len() <= part.size {
                data.len() as int
            } else {
                part.size as int
            };
            output.file_offset + part.output_offset + copied > buf.len()
                ==> pe_writer::with_contribution(buf, layout, output, part) == Err::<
                Seq<u8>,
                LinkError,
            >(
                LinkError::SectionOutOfBounds {
                    object: part.object_index,
                    section: part.section_index,
                },
            )
        }),
{
}

} // verus!
