//! Where every layout puts the sections of its objects.
use crate::align;
use crate::error::LinkError;
use crate::header_laws;
use crate::input::{ObjectView, SectionView};
use crate::layout_laws;
use crate::pe_grouping;
use crate::pe_layout;
use crate::pe_layout::{LayoutView, PeLayout};
use crate::pe_section;
use crate::pe_section::{OutputSection, OutputView, SectionContribution};
use crate::pe_writer;
use vstd::arithmetic::power2;
use vstd::prelude::*;

verus! {

// ---- models ----

/// The models of output sections and layouts hold all that these hold.
pub proof fn layout_models_hold_everything(section: OutputSection, layout: PeLayout)
    ensures
        section@.name == section.name@,
        section@.virtual_address == section.virtual_address,
        section@.virtual_size == section.virtual_size,
        section@.file_offset == section.file_offset,
        section@.raw_data_size == section.raw_data_size,
        section@.characteristics == section.characteristics,
        section@.is_bss == section.is_bss,
        section@.contributions == section.contributions@,
        layout@.image_base == layout.image_base,
        layout@.machine == layout.machine,
        layout@.sections.len() == layout.sections@.len(),
        forall|k: int|
            0 <= k < layout.sections@.len() ==> #[trigger] layout@.sections[k]
                == layout.sections@[k]@,
        layout@.objects.len() == layout.objects@.len(),
        forall|i: int|
            0 <= i < layout.objects@.len() ==> #[trigger] layout@.objects[i] == layout.objects@[i]@,
        layout@.symbol_addresses.len() == layout.symbol_addresses@.len(),
        forall|i: int|
            0 <= i < layout.symbol_addresses@.len() ==> #[trigger] layout@.symbol_addresses[i]
                == layout.symbol_addresses@[i]@,
        layout@.global_definitions == layout.global_definitions@,
        layout@.entry_point_rva == layout.entry_point_rva,
        layout@.size_of_headers == layout.size_of_headers,
        layout@.size_of_image == layout.size_of_image,
        layout@.file_size == layout.file_size,
{
}

// ---- single sections ----

/// Whether the first `n` bytes of a name are there and none of them is a dollar sign.
pub open spec fn is_in_front_of_dollar(name: Seq<u8>, n: int) -> bool {
    n <= name.len() && forall|i: int| 0 <= i < n ==> #[trigger] name[i] != 0x24
}

/// The name of an output section has eight bytes: those of the input section up to the first dollar
/// sign, as far as there is room, and zeros behind them.
pub proof fn names_end_at_the_dollar_sign(name: Seq<u8>, i: int)
    requires
        0 <= i < 8,
    ensures
        pe_section::output_name(name).len() == 8,
        pe_section::output_name(name)[i] == (if is_in_front_of_dollar(name, i + 1) {
            name[i]
        } else {
            0
        }),
{
    pe_section::lemma_base_name(name);
    let n = pe_section::base_name(name).len() as int;
    if i < n {
        assert(pe_section::base_name(name)[i] == name.take(n)[i]);
        assert(is_in_front_of_dollar(name, i + 1));
    } else if is_in_front_of_dollar(name, i + 1) {
        assert(name[n] != 0x24);
    }
}

/// The four bits of the flags that stand for an alignment stand for the powers of two up to 16384;
/// without them sections start anywhere.
pub proof fn alignments_are_powers_of_two(characteristics: u32)
    ensures
        ({
            let bits = (characteristics as int / 0x10_0000) % 16;
            let alignment = pe_section::section_alignment(characteristics);
            &&& bits <= 1 ==> alignment == 1
            &&& bits == 2 ==> alignment == 2
            &&& bits == 3 ==> alignment == 4
            &&& bits == 4 ==> alignment == 8
            &&& bits == 5 ==> alignment == 16
            &&& bits == 6 ==> alignment == 32
            &&& bits == 7 ==> alignment == 64
            &&& bits == 8 ==> alignment == 128
            &&& bits == 9 ==> alignment == 256
            &&& bits == 10 ==> alignment == 512
            &&& bits == 11 ==> alignment == 1024
            &&& bits == 12 ==> alignment == 2048
            &&& bits == 13 ==> alignment == 4096
            &&& bits == 14 ==> alignment == 8192
            &&& bits == 15 ==> alignment == 16384
        }),
{
    power2::lemma2_to64();
}

/// Whether a section is left out: it can be discarded, it is empty, or it holds neither code nor
/// data and can be neither executed, read nor written.
pub open spec fn is_left_out(section: SectionView) -> bool {
    ||| section.characteristics & 0x0200_0000 != 0
    ||| section.size == 0 && section.data.len() == 0
    ||| section.characteristics & 0xE000_00E0 == 0
}

/// The larger of the size of a section and the length of its data, as far as 32 bits can say.
pub open spec fn extent(section: SectionView) -> int {
    if section.data.len() > 0xFFFF_FFFF {
        0xFFFF_FFFF
    } else if section.data.len() > section.size {
        section.data.len() as int
    } else {
        section.size as int
    }
}

/// Sections are left out by their flags and sizes, and take up as much as the larger of their sizes
/// says.
pub proof fn sections_are_kept_by_flags_and_size(section: SectionView)
    ensures
        pe_section::is_discarded(section) == is_left_out(section),
        pe_section::section_extent(section) == extent(section),
        pe_section::is_bss(section.characteristics) <==> section.characteristics & 0x80 != 0,
{
}

/// The place of a section among the others: code first, then constants, data, function tables,
/// unwind data and what is not initialized, then all others.
pub open spec fn rank(name: Seq<u8>) -> int {
    if name == seq![46u8, 116, 101, 120, 116, 0, 0, 0] {
        0
    } else if name == seq![46u8, 114, 100, 97, 116, 97, 0, 0] {
        1
    } else if name == seq![46u8, 100, 97, 116, 97, 0, 0, 0] {
        2
    } else if name == seq![46u8, 112, 100, 97, 116, 97, 0, 0] {
        3
    } else if name == seq![46u8, 120, 100, 97, 116, 97, 0, 0] {
        4
    } else if name == seq![46u8, 98, 115, 115, 0, 0, 0, 0] {
        5
    } else {
        6
    }
}

// ---- output sections ----

/// The input section that a part of an output section stands for.
pub open spec fn origin(objects: Seq<ObjectView>, part: SectionContribution) -> SectionView {
    objects[part.object_index as int].sections[part.section_index as int]
}

/// Where the part in front of the `c`-th one ends.
pub open spec fn end_in_front(parts: Seq<SectionContribution>, c: int) -> int {
    if c == 0 {
        0
    } else {
        parts[c - 1].output_offset + parts[c - 1].size
    }
}

/// Whether a part is what it should be: it stands for a section that is kept and has the name and
/// flags of the output section, has its extent, and starts at the first place behind the part in
/// front of it that its alignment allows.
pub open spec fn is_right_part(objects: Seq<ObjectView>, output: OutputView, c: int) -> bool {
    let part = output.contributions[c];
    let section = origin(objects, part);
    let gap = part.output_offset - end_in_front(output.contributions, c);
    &&& part.object_index < objects.len()
    &&& part.section_index < objects[part.object_index as int].sections.len()
    &&& !is_left_out(section)
    &&& output.name == pe_section::output_name(section.name)
    &&& output.characteristics == section.characteristics & 0xE000_00E0
    &&& output.is_bss == (section.characteristics & 0x80 != 0)
    &&& part.size == extent(section)
    &&& part.output_offset as int % pe_section::section_alignment(section.characteristics) == 0
    &&& 0 <= gap < pe_section::section_alignment(section.characteristics)
}

/// An output section is made of its parts: each is what it should be, they come in the order of the
/// objects and of their sections, there is at least one, and the section ends where the last one
/// ends. In the file it takes up as much, rounded up to a multiple of 512; a section that only takes
/// up memory takes up nothing.
pub proof fn output_sections_are_made_of_parts(
    base_address: Option<u64>,
    objects: Seq<ObjectView>,
    layout: LayoutView,
    k: int,
)
    requires
        layout_laws::is_layout_of(layout, base_address, objects),
        0 <= k < layout.sections.len(),
    ensures
        ({
            let output = layout.sections[k];
            let parts = output.contributions;
            &&& parts.len() > 0
            &&& forall|c: int| 0 <= c < parts.len() ==> #[trigger] is_right_part(objects, output, c)
            &&& forall|c: int, d: int|
                0 <= c < d < parts.len() ==> (#[trigger] parts[c]).object_index < (
                #[trigger] parts[d]).object_index || parts[c].object_index == parts[d].object_index
                    && parts[c].section_index < parts[d].section_index
            &&& output.virtual_size == parts.last().output_offset + parts.last().size
            &&& output.is_bss ==> output.raw_data_size == 0 && output.file_offset == 0
            &&& !output.is_bss ==> output.raw_data_size as int % 512 == 0 && 0
                <= output.raw_data_size - output.virtual_size < 512
        }),
{
    layout_laws::lemma_kept(base_address, objects, layout);
    layout_laws::section_lies_in_file(base_address, objects, layout, k);
    let outputs = layout_laws::unplaced(objects);
    let output = layout.sections[k];
    let parts = output.contributions;
    assert(pe_grouping::is_packed(objects, outputs[k])) by {
        reveal(pe_grouping::all_packed);
    }
    assert(outputs[k].raw_data_size == (if outputs[k].is_bss {
        0
    } else {
        outputs[k].virtual_size
    })) by {
        reveal(pe_grouping::raw_sizes_follow);
    }
    lemma_packed_parts(objects, outputs[k]);
    assert forall|c: int| 0 <= c < parts.len() implies #[trigger] is_right_part(
        objects,
        output,
        c,
    ) by {
        assert(is_right_part(objects, outputs[k], c));
    }
    layout_laws::lemma_file(outputs, k + 1);
    align::aligned_is_next_multiple(outputs[k].raw_data_size as int, 512);
}

/// Packed sections are made of their parts.
proof fn lemma_packed_parts(objects: Seq<ObjectView>, output: OutputView)
    requires
        pe_grouping::is_packed(objects, output),
    ensures
        ({
            let parts = output.contributions;
            &&& parts.len() > 0
            &&& forall|c: int| 0 <= c < parts.len() ==> #[trigger] is_right_part(objects, output, c)
            &&& forall|c: int, d: int|
                0 <= c < d < parts.len() ==> (#[trigger] parts[c]).object_index < (
                #[trigger] parts[d]).object_index || parts[c].object_index == parts[d].object_index
                    && parts[c].section_index < parts[d].section_index
            &&& output.virtual_size == parts.last().output_offset + parts.last().size
        }),
{
    let parts = output.contributions;
    assert forall|c: int| 0 <= c < parts.len() implies #[trigger] is_right_part(
        objects,
        output,
        c,
    ) by {
        let section = pe_grouping::source(objects, parts[c]);
        sections_are_kept_by_flags_and_size(section);
        pe_section::section_alignment_is_power_of_two(section.characteristics);
        align::aligned_is_next_multiple(
            pe_grouping::end_before(parts, c),
            pe_section::section_alignment(section.characteristics),
        );
    }
    assert forall|c: int, d: int| 0 <= c < d < parts.len() implies (
    #[trigger] parts[c]).object_index < (#[trigger] parts[d]).object_index || parts[c].object_index
        == parts[d].object_index && parts[c].section_index < parts[d].section_index by {
        assert(pe_grouping::comes_before(
            parts[c].object_index as int,
            parts[c].section_index as int,
            parts[d].object_index as int,
            parts[d].section_index as int,
        ));
    }
}

/// A section that is kept is a part of exactly one output section, and is told which one and at
/// which offset. One that is left out is no part of any, and stays as it is.
pub proof fn kept_sections_are_parts(
    base_address: Option<u64>,
    objects: Seq<ObjectView>,
    layout: LayoutView,
    i: int,
    j: int,
)
    requires
        layout_laws::is_layout_of(layout, base_address, objects),
        0 <= i < objects.len(),
        0 <= j < objects[i].sections.len(),
    ensures
        ({
            let before = objects[i].sections[j];
            let after = layout.objects[i].sections[j];
            if is_left_out(before) {
                &&& after == before
                &&& forall|k: int, c: int| !#[trigger] is_part(layout, k, c, i, j)
            } else {
                &&& after.output_section is Some
                &&& after == (SectionView {
                    output_section: after.output_section,
                    output_offset: after.output_offset,
                    ..before
                })
                &&& exists|c: int|
                    #[trigger] is_part(layout, after.output_section->0 as int, c, i, j)
                        && layout.sections[after.output_section->0 as int].contributions[c].output_offset
                        == after.output_offset
                &&& forall|k: int, c: int, l: int, d: int|
                    #[trigger] is_part(layout, k, c, i, j) && #[trigger] is_part(layout, l, d, i, j)
                        ==> k == l && c == d
            }
        }),
        layout.objects.len() == objects.len(),
        layout.objects[i].sections.len() == objects[i].sections.len(),
        layout.objects[i].symbols == objects[i].symbols,
        layout.objects[i].path == objects[i].path,
{
    let before = objects[i].sections[j];
    sections_are_kept_by_flags_and_size(before);
    layout_laws::objects_stay(base_address, objects, layout, i);
    if is_left_out(before) {
        layout_laws::discarded_sections_have_no_place(base_address, objects, layout, i, j);
        assert forall|k: int, c: int| !#[trigger] is_part(layout, k, c, i, j) by {
            assert(!pe_grouping::contributes(layout.sections, k, c, i, j));
        }
    } else {
        layout_laws::kept_sections_have_one_place(base_address, objects, layout, i, j);
        let after = layout.objects[i].sections[j];
        let k = after.output_section->0 as int;
        let c = choose|c: int|
            #[trigger] pe_grouping::contributes(layout.sections, k, c, i, j)
                && layout.sections[k].contributions[c].output_offset == after.output_offset;
        assert(is_part(layout, k, c, i, j));
        assert forall|k: int, c: int, l: int, d: int|
            #[trigger] is_part(layout, k, c, i, j) && #[trigger] is_part(layout, l, d, i, j) implies k
            == l && c == d by {
            assert(pe_grouping::contributes(layout.sections, k, c, i, j));
            assert(pe_grouping::contributes(layout.sections, l, d, i, j));
        }
    }
}

/// Whether the `c`-th part of the `k`-th output section stands for the `j`-th section of the `i`-th
/// object.
pub open spec fn is_part(layout: LayoutView, k: int, c: int, i: int, j: int) -> bool {
    &&& 0 <= k < layout.sections.len()
    &&& 0 <= c < layout.sections[k].contributions.len()
    &&& layout.sections[k].contributions[c].object_index == i
    &&& layout.sections[k].contributions[c].section_index == j
}

// ---- the order of output sections ----

/// Whether one output section comes in front of another by where its first part comes from.
pub open spec fn starts_earlier(a: OutputView, b: OutputView) -> bool {
    let x = a.contributions[0];
    let y = b.contributions[0];
    x.object_index < y.object_index || x.object_index == y.object_index && x.section_index
        < y.section_index
}

/// Output sections come by rank, and those of one rank in the order in which the inputs call for
/// them. No two agree on name, flags and on whether they only take up memory.
pub proof fn output_sections_come_in_order(
    base_address: Option<u64>,
    objects: Seq<ObjectView>,
    layout: LayoutView,
    k: int,
    l: int,
)
    requires
        layout_laws::is_layout_of(layout, base_address, objects),
        0 <= k < l < layout.sections.len(),
    ensures
        ({
            let a = layout.sections[k];
            let b = layout.sections[l];
            &&& rank(a.name) < rank(b.name) || rank(a.name) == rank(b.name) && starts_earlier(a, b)
            &&& !(a.name == b.name && a.characteristics == b.characteristics && a.is_bss
                == b.is_bss)
        }),
{
    layout_laws::sections_are_ordered(base_address, objects, layout, k, l);
    layout_laws::lemma_kept(base_address, objects, layout);
    let groups = pe_grouping::groups(objects)->Ok_0;
    let outputs = layout_laws::unplaced(objects);
    lemma_groups_start(objects, objects.len() as int, 0);
    lemma_rank(outputs[k].name);
    lemma_rank(outputs[l].name);
    if rank(outputs[k].name) == rank(outputs[l].name) {
        lemma_buckets_in_order(groups, 11, k, l);
        assert(starts_earlier(outputs[k], outputs[l]));
    }
}

/// Ranks are in the order of sort keys.
proof fn lemma_rank(name: Seq<u8>)
    ensures
        rank(name) == (if pe_section::sort_key(name) == 10 {
            6
        } else {
            pe_section::sort_key(name)
        }),
        0 <= pe_section::sort_key(name) <= 10,
{
}

/// Whether groups come in the order in which they start.
spec fn start_in_order(outputs: Seq<OutputView>) -> bool {
    forall|k: int, l: int|
        0 <= k < l < outputs.len() ==> starts_earlier(#[trigger] outputs[k], #[trigger] outputs[l])
}

/// Groups come in the order in which they start.
proof fn lemma_groups_start(objects: Seq<ObjectView>, i: int, j: int)
    requires
        pe_grouping::is_indexable(objects),
        0 <= i <= objects.len(),
        i < objects.len() ==> 0 <= j <= objects[i].sections.len(),
        i == objects.len() ==> j == 0,
        pe_grouping::grouped(objects, i, j) is Ok,
    ensures
        start_in_order(pe_grouping::grouped(objects, i, j)->Ok_0),
    decreases i, j,
{
    if j > 0 {
        lemma_groups_start(objects, i, j - 1);
        pe_grouping::lemma_grouped(objects, i, j - 1);
        let section = objects[i].sections[j - 1];
        if !pe_section::is_discarded(section) {
            let before = pe_grouping::grouped(objects, i, j - 1)->Ok_0;
            let after = pe_grouping::grouped(objects, i, j)->Ok_0;
            let group = pe_grouping::group_from(before, section, 0);
            assert(objects[i].sections.len() <= usize::MAX);
            lemma_group_bounds(before, section, 0);
            reveal(pe_grouping::all_packed);
            reveal(pe_grouping::all_before);
            assert forall|k: int, l: int| 0 <= k < l < after.len() implies starts_earlier(
                #[trigger] after[k],
                #[trigger] after[l],
            ) by {
                assert(k < before.len());
                assert(pe_grouping::is_packed(objects, before[k]));
                assert(after[k].contributions[0] == before[k].contributions[0]);
                if l < before.len() {
                    assert(pe_grouping::is_packed(objects, before[l]));
                    assert(after[l].contributions[0] == before[l].contributions[0]);
                    assert(starts_earlier(before[k], before[l]));
                } else {
                    assert(after[l].contributions[0].object_index == i);
                    assert(after[l].contributions[0].section_index == j - 1);
                    let part = before[k].contributions[0];
                    assert(pe_grouping::comes_before(
                        part.object_index as int,
                        part.section_index as int,
                        i,
                        j - 1,
                    ));
                }
            }
        }
    } else if i > 0 {
        lemma_groups_start(objects, i - 1, objects[i - 1].sections.len() as int);
    }
}

/// The group that is found is one of the groups, or a new one.
proof fn lemma_group_bounds(outputs: Seq<OutputView>, section: SectionView, from: int)
    requires
        0 <= from <= outputs.len(),
    ensures
        0 <= pe_grouping::group_from(outputs, section, from) <= outputs.len(),
    decreases outputs.len() - from,
{
    if from < outputs.len() && !pe_grouping::belongs(outputs[from], section) {
        lemma_group_bounds(outputs, section, from + 1);
    }
}

/// Groups with one key stay in order.
proof fn lemma_bucket_in_order(outputs: Seq<OutputView>, key: int)
    requires
        start_in_order(outputs),
    ensures
        start_in_order(pe_grouping::bucket(outputs, key)),
        forall|k: int|
            0 <= k < pe_grouping::bucket(outputs, key).len() ==> pe_section::sort_key(
                (#[trigger] pe_grouping::bucket(outputs, key)[k]).name,
            ) == key && outputs.contains(pe_grouping::bucket(outputs, key)[k]),
    decreases outputs.len(),
{
    reveal(Seq::filter);
    let has_key = |o: OutputView| pe_section::sort_key(o.name) == key;
    let all = outputs.filter(has_key);
    if outputs.len() > 0 {
        let rest = outputs.drop_last();
        assert(start_in_order(rest)) by {
            assert forall|k: int, l: int| 0 <= k < l < rest.len() implies starts_earlier(
                #[trigger] rest[k],
                #[trigger] rest[l],
            ) by {
                assert(rest[k] == outputs[k]);
                assert(rest[l] == outputs[l]);
            }
        }
        lemma_bucket_in_order(rest, key);
        let before = rest.filter(has_key);
        assert(before == pe_grouping::bucket(rest, key));
        let last = outputs.last();
        assert forall|k: int| 0 <= k < before.len() implies outputs.contains(#[trigger] before[k])
            && starts_earlier(before[k], last) by {
            assert(rest.contains(before[k]));
            let p = rest.index_of(before[k]);
            assert(outputs[p] == before[k]);
            assert(outputs[outputs.len() - 1] == last);
        }
        if has_key(last) {
            assert(all == before.push(last));
            assert forall|k: int, l: int| 0 <= k < l < all.len() implies starts_earlier(
                #[trigger] all[k],
                #[trigger] all[l],
            ) by {
                if l < before.len() {
                    assert(starts_earlier(before[k], before[l]));
                } else {
                    assert(all[k] == before[k]);
                }
            }
            assert forall|k: int| 0 <= k < all.len() implies pe_section::sort_key(
                (#[trigger] all[k]).name,
            ) == key && outputs.contains(all[k]) by {
                if k < before.len() {
                    assert(all[k] == before[k]);
                } else {
                    assert(outputs[outputs.len() - 1] == last);
                }
            }
        } else {
            assert(all == before);
            assert forall|k: int| 0 <= k < all.len() implies pe_section::sort_key(
                (#[trigger] all[k]).name,
            ) == key && outputs.contains(all[k]) by {
                assert(all[k] == before[k]);
            }
        }
    }
}

/// Sorted groups with one key stay in order.
proof fn lemma_buckets_in_order(outputs: Seq<OutputView>, limit: int, k: int, l: int)
    requires
        start_in_order(outputs),
        0 <= limit,
        0 <= k < l < pe_grouping::buckets_below(outputs, limit).len(),
        pe_section::sort_key(pe_grouping::buckets_below(outputs, limit)[k].name)
            == pe_section::sort_key(pe_grouping::buckets_below(outputs, limit)[l].name),
    ensures
        starts_earlier(
            pe_grouping::buckets_below(outputs, limit)[k],
            pe_grouping::buckets_below(outputs, limit)[l],
        ),
    decreases limit,
{
    if limit > 0 {
        let before = pe_grouping::buckets_below(outputs, limit - 1);
        let own = pe_grouping::bucket(outputs, limit - 1);
        lemma_bucket_in_order(outputs, limit - 1);
        if l < before.len() {
            lemma_buckets_in_order(outputs, limit - 1, k, l);
        } else if k >= before.len() {
            assert(starts_earlier(own[k - before.len()], own[l - before.len()]));
        } else {
            lemma_keys_below(outputs, limit - 1, k);
            assert(pe_section::sort_key(own[l - before.len()].name) == limit - 1);
        }
    }
}

/// Groups in the first buckets have small keys.
proof fn lemma_keys_below(outputs: Seq<OutputView>, limit: int, k: int)
    requires
        start_in_order(outputs),
        0 <= limit,
        0 <= k < pe_grouping::buckets_below(outputs, limit).len(),
    ensures
        pe_section::sort_key(pe_grouping::buckets_below(outputs, limit)[k].name) < limit,
    decreases limit,
{
    if limit > 0 {
        let before = pe_grouping::buckets_below(outputs, limit - 1);
        lemma_bucket_in_order(outputs, limit - 1);
        if k < before.len() {
            lemma_keys_below(outputs, limit - 1, k);
        } else {
            let own = pe_grouping::bucket(outputs, limit - 1);
            assert(pe_section::sort_key(own[k - before.len()].name) == limit - 1);
        }
    }
}

// ---- addresses and places in the file ----

/// Where the section in front of the `k`-th one ends in memory; in front of the first one are the
/// headers.
pub open spec fn end_in_memory(layout: LayoutView, k: int) -> int {
    if k == 0 {
        layout.size_of_headers as int
    } else {
        layout.sections[k - 1].virtual_address + layout.sections[k - 1].virtual_size
    }
}

/// The sizes in the file of the first `k` sections.
pub open spec fn sizes_in_file(layout: LayoutView, k: int) -> Seq<int> {
    Seq::new(k as nat, |l: int| layout.sections[l].raw_data_size as int)
}

/// A new layout is for the x86-64, at the base that was asked for or else at the default one. The
/// headers end at the first multiple of 512 that leaves room for all of them. In memory, each
/// section starts at the first multiple of 4096 behind the one in front of it, and the image ends at
/// the first one behind the last. In the file, the sections that have contents follow the headers
/// and one another without gaps. No symbol has an address or a definition, and there is no entry
/// point.
pub proof fn sections_follow_one_another(
    base_address: Option<u64>,
    objects: Seq<ObjectView>,
    layout: LayoutView,
)
    requires
        layout_laws::is_layout_of(layout, base_address, objects),
    ensures
        layout.image_base == (match base_address {
            Some(base) => base,
            None => 0x1_4000_0000,
        }),
        layout.machine == 0x8664,
        layout.size_of_headers as int % 512 == 0,
        0 <= layout.size_of_headers - (328 + 40 * layout.sections.len()) < 512,
        forall|k: int|
            0 <= k < layout.sections.len() ==> {
                let address = (#[trigger] layout.sections[k]).virtual_address;
                &&& address as int % 4096 == 0
                &&& 0 <= address - end_in_memory(layout, k) < 4096
            },
        layout.size_of_image as int % 4096 == 0,
        0 <= layout.size_of_image - end_in_memory(layout, layout.sections.len() as int) < 4096,
        forall|k: int|
            0 <= k < layout.sections.len() && !(#[trigger] layout.sections[k]).is_bss
                ==> layout.sections[k].file_offset == layout.size_of_headers + header_laws::sum(
                sizes_in_file(layout, k),
            ),
        layout.file_size == layout.size_of_headers + header_laws::sum(
            sizes_in_file(layout, layout.sections.len() as int),
        ),
        layout.global_definitions == Map::<Seq<char>, (usize, usize)>::empty(),
        layout.entry_point_rva == 0,
        layout.symbol_addresses.len() == objects.len(),
        forall|i: int|
            0 <= i < objects.len() ==> (#[trigger] layout.symbol_addresses[i]).len()
                == objects[i].symbols.len(),
        forall|i: int, s: int|
            0 <= i < objects.len() && 0 <= s < objects[i].symbols.len()
                ==> #[trigger] layout.symbol_addresses[i][s] is None,
{
    layout_laws::lemma_kept(base_address, objects, layout);
    layout_laws::sections_are_few(base_address, objects, layout);
    let outputs = layout_laws::unplaced(objects);
    let n = outputs.len() as int;
    let headers = pe_layout::headers_end(n);
    align::aligned_is_next_multiple(pe_writer::header_bytes(n), 512);
    align::aligned_is_next_multiple(headers, 4096);
    layout_laws::lemma_rva(outputs, n);
    layout_laws::lemma_file(outputs, n);
    assert forall|k: int| 0 <= k < n implies {
        let address = (#[trigger] layout.sections[k]).virtual_address;
        &&& address as int % 4096 == 0
        &&& 0 <= address - end_in_memory(layout, k) < 4096
    } by {
        layout_laws::lemma_rva(outputs, k);
        if k > 0 {
            layout_laws::lemma_rva(outputs, k - 1);
            let _ = layout.sections[k - 1];
            align::aligned_is_next_multiple(
                pe_layout::rva_at(outputs, k - 1) + outputs[k - 1].virtual_size,
                4096,
            );
        }
    }
    if n > 0 {
        layout_laws::lemma_rva(outputs, n - 1);
        let _ = layout.sections[n - 1];
        align::aligned_is_next_multiple(
            pe_layout::rva_at(outputs, n - 1) + outputs[n - 1].virtual_size,
            4096,
        );
    }
    assert forall|k: int| 0 <= k < n && !(#[trigger] layout.sections[k]).is_bss implies
        layout.sections[k].file_offset == layout.size_of_headers + header_laws::sum(sizes_in_file(layout, k)) by {
        layout_laws::lemma_file(outputs, k);
        lemma_file_places(base_address, objects, layout, k);
    }
    lemma_file_places(base_address, objects, layout, n);
}

/// Places in the file are sums of sizes.
proof fn lemma_file_places(
    base_address: Option<u64>,
    objects: Seq<ObjectView>,
    layout: LayoutView,
    k: int,
)
    requires
        layout_laws::is_layout_of(layout, base_address, objects),
        0 <= k <= layout.sections.len(),
        layout.sections.len() == layout_laws::unplaced(objects).len(),
    ensures
        pe_layout::file_at(layout_laws::unplaced(objects), k) == layout.size_of_headers + header_laws::sum(
            sizes_in_file(layout, k),
        ),
    decreases k,
{
    let outputs = layout_laws::unplaced(objects);
    layout_laws::lemma_file(outputs, k);
    if k > 0 {
        lemma_file_places(base_address, objects, layout, k - 1);
        layout_laws::section_lies_in_file(base_address, objects, layout, k - 1);
        let sizes = sizes_in_file(layout, k);
        assert(sizes.drop_last() =~= sizes_in_file(layout, k - 1));
    } else {
        layout_laws::lemma_file(outputs, 0);
    }
}

// ---- when there is a layout ----

/// The room that the kept ones of the first sections take up at most: their extents and alignments,
/// and two pages for each.
pub open spec fn room(objects: Seq<ObjectView>, i: int, j: int) -> int
    decreases i, j,
{
    if j > 0 {
        let section = objects[i].sections[j - 1];
        room(objects, i, j - 1) + (if is_left_out(section) {
            0
        } else {
            extent(section) + pe_section::section_alignment(section.characteristics) + 0x2000
        })
    } else if i > 0 {
        room(objects, i - 1, objects[i - 1].sections.len() as int)
    } else {
        0
    }
}

/// The memory that groups take up, and two pages for each.
spec fn weight(outputs: Seq<OutputView>, n: int) -> int
    decreases n,
{
    if n <= 0 {
        0
    } else {
        weight(outputs, n - 1) + outputs[n - 1].virtual_size + 0x2000
    }
}

/// Weights grow.
proof fn lemma_weight_grows(outputs: Seq<OutputView>, n: int, m: int)
    requires
        0 <= n <= m,
    ensures
        0 <= weight(outputs, n) <= weight(outputs, m),
    decreases m,
{
    if n < m {
        lemma_weight_grows(outputs, n, m - 1);
    } else if n > 0 {
        lemma_weight_grows(outputs, 0, m - 1);
    }
}

/// The weight with one group changed.
proof fn lemma_weight_update(outputs: Seq<OutputView>, g: int, output: OutputView, n: int)
    requires
        0 <= g < outputs.len(),
        0 <= n <= outputs.len(),
    ensures
        weight(outputs.update(g, output), n) == weight(outputs, n) + (if g < n {
            output.virtual_size - outputs[g].virtual_size
        } else {
            0
        }),
    decreases n,
{
    if n > 0 {
        lemma_weight_update(outputs, g, output, n - 1);
    }
}

/// Only the first groups count.
proof fn lemma_weight_same(a: Seq<OutputView>, b: Seq<OutputView>, n: int)
    requires
        0 <= n <= a.len(),
        n <= b.len(),
        forall|k: int| 0 <= k < n ==> #[trigger] a[k] == b[k],
    ensures
        weight(a, n) == weight(b, n),
    decreases n,
{
    if n > 0 {
        lemma_weight_same(a, b, n - 1);
        assert(a[n - 1] == b[n - 1]);
    }
}

/// Room grows.
proof fn lemma_room_grows(objects: Seq<ObjectView>, a: int, b: int, i: int, j: int)
    requires
        0 <= a,
        0 <= b,
        0 <= i <= objects.len(),
        i < objects.len() ==> 0 <= j <= objects[i].sections.len(),
        i == objects.len() ==> j == 0,
        a < objects.len() ==> b <= objects[a].sections.len(),
        a == i && b == j || pe_grouping::comes_before(a, b, i, j),
    ensures
        0 <= room(objects, a, b) <= room(objects, i, j),
    decreases i, j,
{
    if j > 0 {
        let section = objects[i].sections[j - 1];
        pe_section::section_alignment_is_power_of_two(section.characteristics);
        if a == i && b == j {
            lemma_room_grows(objects, i, j - 1, i, j - 1);
        } else {
            lemma_room_grows(objects, a, b, i, j - 1);
        }
    } else if i > 0 {
        let end = objects[i - 1].sections.len() as int;
        if a == i && b == j {
            lemma_room_grows(objects, i - 1, end, i - 1, end);
        } else {
            lemma_room_grows(objects, a, b, i - 1, end);
        }
    }
}

/// Sections can be grouped where they fit.
proof fn lemma_grouping_succeeds(objects: Seq<ObjectView>, i: int, j: int)
    requires
        0 <= i <= objects.len(),
        i < objects.len() ==> 0 <= j <= objects[i].sections.len(),
        i == objects.len() ==> j == 0,
        room(objects, i, j) <= 0xFFFF_0000,
    ensures
        pe_grouping::grouped(objects, i, j) is Ok,
        ({
            let outputs = pe_grouping::grouped(objects, i, j)->Ok_0;
            weight(outputs, outputs.len() as int) <= room(objects, i, j)
        }),
    decreases i, j,
{
    if j > 0 {
        lemma_room_grows(objects, i, j - 1, i, j);
        lemma_grouping_succeeds(objects, i, j - 1);
        let before = pe_grouping::grouped(objects, i, j - 1)->Ok_0;
        let section = objects[i].sections[j - 1];
        sections_are_kept_by_flags_and_size(section);
        if !is_left_out(section) {
            let alignment = pe_section::section_alignment(section.characteristics);
            let group = pe_grouping::group_from(before, section, 0);
            let all = pe_grouping::with_group(before, section);
            pe_section::section_alignment_is_power_of_two(section.characteristics);
            lemma_group_bounds(before, section, 0);
            lemma_weight_same(before, all, before.len() as int);
            align::aligned_is_next_multiple(all[group].virtual_size as int, alignment);
            lemma_weight_grows(all, 0, group);
            lemma_weight_grows(all, group + 1, all.len() as int);
            lemma_weight_update(
                all,
                group,
                pe_grouping::extended(all[group], section, i, j - 1),
                all.len() as int,
            );
        }
    } else if i > 0 {
        lemma_grouping_succeeds(objects, i - 1, objects[i - 1].sections.len() as int);
    }
}

/// The weight with one group put in between.
proof fn lemma_weight_insert(outputs: Seq<OutputView>, place: int, output: OutputView, n: int)
    requires
        0 <= place <= outputs.len(),
        0 <= n <= outputs.len() + 1,
    ensures
        weight(outputs.insert(place, output), n) == (if n <= place {
            weight(outputs, n)
        } else {
            weight(outputs, n - 1) + output.virtual_size + 0x2000
        }),
    decreases n,
{
    if n > 0 {
        lemma_weight_insert(outputs, place, output, n - 1);
        if n - 1 > place {
            assert(outputs.insert(place, output)[n - 1] == outputs[n - 2]);
        }
    }
}

/// Sorting keeps the weight.
proof fn lemma_sorted_weight(outputs: Seq<OutputView>)
    ensures
        weight(pe_grouping::sorted(outputs), outputs.len() as int) == weight(
            outputs,
            outputs.len() as int,
        ),
        pe_grouping::sorted(outputs).len() == outputs.len(),
    decreases outputs.len(),
{
    pe_grouping::sorting_keeps_sections(outputs);
    if outputs.len() > 0 {
        let first = outputs[0];
        let rest = outputs.drop_first();
        lemma_sorted_weight(rest);
        pe_grouping::sorting_keeps_sections(rest);
        assert(outputs =~= seq![first] + rest);
        pe_grouping::lemma_buckets_prepend(first, rest, 11);
        let place = pe_grouping::buckets_below(rest, pe_section::sort_key(first.name)).len() as int;
        assert(outputs =~= rest.insert(0, first));
        lemma_weight_insert(pe_grouping::sorted(rest), place, first, outputs.len() as int);
        lemma_weight_insert(rest, 0, first, outputs.len() as int);
    }
}

/// Sections can be given their places where they fit.
proof fn lemma_places_fit(outputs: Seq<OutputView>, k: int)
    requires
        0 <= k <= outputs.len(),
        weight(outputs, outputs.len() as int) <= 0xFFFF_0000,
        forall|l: int|
            0 <= l < outputs.len() && !(#[trigger] outputs[l]).is_bss ==> outputs[l].raw_data_size
                == outputs[l].virtual_size,
    ensures
        pe_layout::address_error(outputs, k) is None,
        pe_layout::rva_at(outputs, k) <= 0x2000 + 40 * outputs.len() + weight(outputs, k) - 0x1000
            * k,
        pe_layout::file_at(outputs, k) <= 0x1000 + 40 * outputs.len() + weight(outputs, k) - 0x1000
            * k,
        0x2000 * outputs.len() <= weight(outputs, outputs.len() as int),
    decreases k,
{
    let n = outputs.len() as int;
    lemma_weight_pages(outputs, n);
    lemma_weight_grows(outputs, k, n);
    align::aligned_is_next_multiple(pe_writer::header_bytes(n), 512);
    align::aligned_is_next_multiple(pe_layout::headers_end(n), 4096);
    if k > 0 {
        lemma_places_fit(outputs, k - 1);
        lemma_weight_pages_between(outputs, k, n);
        let output = outputs[k - 1];
        align::aligned_is_next_multiple(
            pe_layout::rva_at(outputs, k - 1) + output.virtual_size,
            4096,
        );
        align::aligned_is_next_multiple(output.raw_data_size as int, 512);
        assert(weight(outputs, k) == weight(outputs, k - 1) + output.virtual_size + 0x2000);
        assert(!output.is_bss ==> output.raw_data_size == output.virtual_size);
        assert(pe_layout::file_at(outputs, k) <= u32::MAX);
        assert(pe_layout::rva_at(outputs, k - 1) + output.virtual_size + 0x1000 <= u32::MAX);
        lemma_weight_grows(outputs, 0, k - 1);
        assert(output.virtual_size + 0x200 <= u32::MAX);
        assert(pe_layout::step_error(outputs, k - 1) is None);
    } else {
        assert(n as int % 0x1_0000_0000 == n);
        assert(pe_writer::header_bytes(n) == 328 + 40 * n);
    }
}

/// Each group counts for two pages at least.
proof fn lemma_weight_pages(outputs: Seq<OutputView>, n: int)
    requires
        0 <= n,
    ensures
        0x2000 * n <= weight(outputs, n),
    decreases n,
{
    if n > 0 {
        lemma_weight_pages(outputs, n - 1);
    }
}

/// Each further group counts for two pages at least.
proof fn lemma_weight_pages_between(outputs: Seq<OutputView>, k: int, n: int)
    requires
        0 <= k <= n,
    ensures
        weight(outputs, k) + 0x2000 * (n - k) <= weight(outputs, n),
    decreases n,
{
    if k < n {
        lemma_weight_pages_between(outputs, k, n - 1);
    }
}

/// There is a layout for all objects whose sections fit: where the kept sections, with their
/// alignments and two pages for each, take up less than four gigabytes, and no section claims a
/// place already.
pub proof fn objects_that_fit_have_a_layout(base_address: Option<u64>, objects: Seq<ObjectView>)
    requires
        pe_grouping::is_indexable(objects),
        room(objects, objects.len() as int, 0) <= 0xFFFF_0000,
        forall|i: int, j: int|
            0 <= i < objects.len() && 0 <= j < objects[i].sections.len()
                ==> (#[trigger] objects[i].sections[j]).output_section is None,
    ensures
        pe_layout::layout_of(base_address, objects) is Ok,
{
    let n = objects.len() as int;
    lemma_grouping_succeeds(objects, n, 0);
    let groups = pe_grouping::groups(objects)->Ok_0;
    let outputs = pe_grouping::sorted(groups);
    lemma_sorted_weight(groups);
    pe_grouping::lemma_grouped(objects, n, 0);
    pe_grouping::lemma_sorted(objects, groups, n, 0);
    assert forall|l: int| 0 <= l < outputs.len() && !(#[trigger] outputs[l]).is_bss implies
        outputs[l].raw_data_size == outputs[l].virtual_size by {
        reveal(pe_grouping::raw_sizes_follow);
    }
    lemma_places_fit(outputs, outputs.len() as int);
    assert(!exists|i: int, j: int| pe_layout::is_false_claim(objects, i, j)) by {
        assert forall|i: int, j: int| !pe_layout::is_false_claim(objects, i, j) by {
            if pe_grouping::has_section(objects, i, j) {
                assert(objects[i].sections[j].output_section is None);
            }
        }
    }
}

/// A section that is left out cannot claim a place.
pub proof fn left_out_sections_cannot_claim_a_place(
    base_address: Option<u64>,
    objects: Seq<ObjectView>,
    i: int,
    j: int,
)
    requires
        0 <= i < objects.len(),
        0 <= j < objects[i].sections.len(),
        is_left_out(objects[i].sections[j]),
        objects[i].sections[j].output_section is Some,
    ensures
        pe_layout::layout_of(base_address, objects) is Err,
        pe_grouping::groups(objects) is Ok ==> pe_layout::layout_of(base_address, objects) == Err::<
            LayoutView,
            LinkError,
        >(LinkError::SectionRemap),
{
    sections_are_kept_by_flags_and_size(objects[i].sections[j]);
    assert(pe_layout::is_false_claim(objects, i, j));
}

// ---- places of sections ----

/// Whether the `c`-th part of the `k`-th output section is section `j` of object `i`.
pub open spec fn is_part_of(outputs: Seq<OutputView>, k: int, c: int, i: int, j: int) -> bool {
    &&& 0 <= k < outputs.len()
    &&& 0 <= c < outputs[k].contributions.len()
    &&& outputs[k].contributions[c].object_index == i
    &&& outputs[k].contributions[c].section_index == j
}

/// The offset of a part is that of the last part that is the section.
proof fn lemma_offset_among(parts: Seq<SectionContribution>, n: int, i: int, j: int)
    requires
        0 <= n <= parts.len(),
    ensures
        match pe_grouping::offset_among(parts, n, i, j) {
            None => forall|c: int|
                0 <= c < n ==> !((#[trigger] parts[c]).object_index == i && parts[c].section_index
                    == j),
            Some(offset) => exists|c: int|
                0 <= c < n && (#[trigger] parts[c]).object_index == i && parts[c].section_index == j
                    && parts[c].output_offset == offset && forall|d: int|
                    c < d < n ==> !((#[trigger] parts[d]).object_index == i
                        && parts[d].section_index == j),
        },
    decreases n,
{
    if n > 0 {
        lemma_offset_among(parts, n - 1, i, j);
        let _ = parts[n - 1];
    }
}

/// The place of a section among the first `n` output sections.
proof fn lemma_home_among(outputs: Seq<OutputView>, n: int, i: int, j: int)
    requires
        0 <= n <= outputs.len() <= usize::MAX,
    ensures
        match pe_grouping::home_among(outputs, n, i, j) {
            None => forall|k: int, c: int| k < n ==> !#[trigger] is_part_of(outputs, k, c, i, j),
            Some((k, offset)) => {
                &&& k < n
                &&& exists|c: int| #[trigger]
                    is_part_of(outputs, k as int, c, i, j)
                        && outputs[k as int].contributions[c].output_offset == offset && forall|d: int|
                        c < d ==> !#[trigger] is_part_of(outputs, k as int, d, i, j)
                &&& forall|l: int, c: int|
                    k < l < n ==> !#[trigger] is_part_of(outputs, l, c, i, j)
            },
        },
    decreases n,
{
    if n > 0 {
        let parts = outputs[n - 1].contributions;
        lemma_home_among(outputs, n - 1, i, j);
        lemma_offset_among(parts, parts.len() as int, i, j);
        match pe_grouping::offset_among(parts, parts.len() as int, i, j) {
            None => {
                assert forall|c: int| !#[trigger] is_part_of(outputs, n - 1, c, i, j) by {
                    if 0 <= c < parts.len() {
                        let _ = parts[c];
                    }
                }
            },
            Some(offset) => {
                let c = choose|c: int|
                    0 <= c < parts.len() && (#[trigger] parts[c]).object_index == i
                        && parts[c].section_index == j && parts[c].output_offset == offset && forall|
                        d: int,
                    |
                        c < d < parts.len() ==> !((#[trigger] parts[d]).object_index == i
                            && parts[d].section_index == j);
                assert(is_part_of(outputs, n - 1, c, i, j));
                assert forall|d: int| c < d implies !#[trigger] is_part_of(
                    outputs,
                    n - 1,
                    d,
                    i,
                    j,
                ) by {
                    if d < parts.len() {
                        let _ = parts[d];
                    }
                }
            },
        }
    }
}

/// A section has the place of the part of an output section that it is, the last one if it is
/// several, and none if it is no part.
pub proof fn sections_have_the_places_of_their_parts(outputs: Seq<OutputView>, i: int, j: int)
    requires
        outputs.len() <= usize::MAX,
    ensures
        match pe_grouping::home(outputs, i, j) {
            None => forall|k: int, c: int| !#[trigger] is_part_of(outputs, k, c, i, j),
            Some((k, offset)) => {
                &&& exists|c: int| #[trigger]
                    is_part_of(outputs, k as int, c, i, j)
                        && outputs[k as int].contributions[c].output_offset == offset && forall|d: int|
                        c < d ==> !#[trigger] is_part_of(outputs, k as int, d, i, j)
                &&& forall|l: int, c: int| k < l ==> !#[trigger] is_part_of(outputs, l, c, i, j)
            },
        },
{
    lemma_home_among(outputs, outputs.len() as int, i, j);
}

/// Whether a section holds what another one holds, but for its place.
pub open spec fn differs_in_place_only(before: SectionView, after: SectionView) -> bool {
    &&& after.index == before.index
    &&& after.name == before.name
    &&& after.data == before.data
    &&& after.size == before.size
    &&& after.characteristics == before.characteristics
    &&& after.relocations == before.relocations
}

/// Sections that claim a place are given the one that they have; all others, and all else, stay as
/// they are. It stops at a section that claims a place and has none: those in front of it have been
/// given theirs, it and those behind it stay as they are.
pub proof fn claimed_places_are_given(
    object: ObjectView,
    outputs: Seq<OutputView>,
    i: int,
    n: int,
    j: int,
)
    requires
        0 <= j < object.sections.len(),
    ensures
        ({
            let section = object.sections[j];
            let all = pe_grouping::remapped_object(object, outputs, i);
            let some = pe_grouping::remapped_up_to(object, outputs, i, n);
            let after = all.sections[j];
            &&& all.path == object.path && some.path == object.path
            &&& all.symbols == object.symbols && some.symbols == object.symbols
            &&& all.sections.len() == object.sections.len()
            &&& some.sections.len() == object.sections.len()
            &&& some.sections[j] == (if j < n {
                after
            } else {
                section
            })
            &&& differs_in_place_only(section, after)
            &&& match pe_grouping::home(outputs, i, j) {
                Some((k, offset)) if section.output_section is Some => after.output_section == Some(
                    k,
                ) && after.output_offset == offset,
                _ => after == section,
            }
        }),
{
}

/// The section that places stop at is the first that claims a place and has none.
pub proof fn places_stop_at_the_first_without(
    before: Seq<ObjectView>,
    after: Seq<ObjectView>,
    outputs: Seq<OutputView>,
    i: int,
    j: int,
    a: int,
    b: int,
)
    requires
        pe_grouping::remap_stops_at(before, after, outputs, i, j),
        0 <= a < before.len(),
        0 <= b < before[a].sections.len(),
    ensures
        0 <= i < before.len(),
        0 <= j < before[i].sections.len(),
        before[i].sections[j].output_section is Some,
        pe_grouping::home(outputs, i, j) is None,
        a < i || a == i && b < j ==> before[a].sections[b].output_section is None
            || pe_grouping::home(outputs, a, b) is Some,
        after.len() == before.len(),
        after[a].path == before[a].path,
        after[a].symbols == before[a].symbols,
        after[a].sections.len() == before[a].sections.len(),
        after[a].sections[b] == (if a < i || a == i && b < j {
            pe_grouping::remapped_object(before[a], outputs, a).sections[b]
        } else {
            before[a].sections[b]
        }),
{
    if a < i || a == i && b < j {
        assert(pe_grouping::comes_before(a, b, i, j));
        assert(!pe_grouping::is_stray(before, outputs, a, b));
    }
    let _ = after[a];
}

} // verus!
