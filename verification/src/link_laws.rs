//! What holds of every image that objects are linked to.
use crate::args::PeArgs;
use crate::bytes;
use crate::error::LinkError;
use crate::image_laws;
use crate::input;
use crate::input::ObjectView;
use crate::layout_laws;
use crate::pe;
use crate::pe_layout;
use crate::pe_layout::LayoutView;
use crate::pe_link;
use crate::pe_reloc;
use crate::pe_symbols;
use crate::pe_writer;
use crate::symbol_laws;
use vstd::prelude::*;

verus! {

/// Whether the objects can be laid out as `layout`, which becomes `result` once its symbols are
/// resolved and its entry point is found.
pub open spec fn is_finished_layout_of(
    result: LayoutView,
    layout: LayoutView,
    args: PeArgs,
    objects: Seq<ObjectView>,
) -> bool {
    &&& layout_laws::is_layout_of(layout, args.base_address, objects)
    &&& pe_link::finished(args, layout) == Ok::<LayoutView, LinkError>(result)
}

/// The sums over the sections stay below the sizes of the file and of the image.
proof fn lemma_totals(
    base_address: Option<u64>,
    objects: Seq<ObjectView>,
    layout: LayoutView,
    kind: u32,
    n: int,
)
    requires
        layout_laws::is_layout_of(layout, base_address, objects),
        0 <= n <= layout.sections.len(),
    ensures
        pe_writer::raw_total(layout.sections, kind, n) <= pe_layout::file_at(
            layout_laws::unplaced(objects),
            n,
        ),
        pe_writer::memory_total(layout.sections, kind, n) <= pe_layout::rva_at(
            layout_laws::unplaced(objects),
            n,
        ),
    decreases n,
{
    let outputs = layout_laws::unplaced(objects);
    layout_laws::lemma_file(outputs, n);
    layout_laws::lemma_rva(outputs, n);
    if n > 0 {
        lemma_totals(base_address, objects, layout, kind, n - 1);
        layout_laws::section_lies_in_file(base_address, objects, layout, n - 1);
    }
}

/// The headers of a layout always fit: there is room for all of them, and the sums over the
/// sections stay in 32 bits.
pub proof fn headers_fit(base_address: Option<u64>, objects: Seq<ObjectView>, layout: LayoutView)
    requires
        layout_laws::is_layout_of(layout, base_address, objects),
    ensures
        pe_writer::headers_error(layout.file_size as int, layout) is None,
{
    let n = layout.sections.len() as int;
    let outputs = layout_laws::unplaced(objects);
    layout_laws::headers_come_first(base_address, objects, layout);
    layout_laws::sections_are_few(base_address, objects, layout);
    layout_laws::lemma_file(outputs, n);
    layout_laws::lemma_rva(outputs, n);
    lemma_totals(base_address, objects, layout, pe::IMAGE_SCN_CNT_CODE, n);
    lemma_totals(base_address, objects, layout, pe::IMAGE_SCN_CNT_INITIALIZED_DATA, n);
    lemma_totals(base_address, objects, layout, pe::IMAGE_SCN_CNT_UNINITIALIZED_DATA, n);
}

/// A finished layout is consistent, its headers and the parts of its sections fit in the file, and
/// they lie apart.
pub proof fn finished_layouts_fit(
    args: PeArgs,
    objects: Seq<ObjectView>,
    layout: LayoutView,
    result: LayoutView,
)
    requires
        is_finished_layout_of(result, layout, args, objects),
    ensures
        pe_symbols::is_consistent(result),
        pe_writer::contributions_exist(result),
        pe_writer::headers_error(result.file_size as int, result) is None,
        image_laws::parts_are_apart(result),
        pe_writer::section_header_at(result.sections.len() as int) <= result.size_of_headers,
        result.size_of_headers <= result.file_size,
        forall|k: int|
            0 <= k < result.sections.len() ==> (#[trigger] result.sections[k]).name.len() == 8,
        forall|k: int|
            0 <= k < result.sections.len() && !(#[trigger] result.sections[k]).is_bss
                ==> result.size_of_headers <= result.sections[k].file_offset,
{
    let middle = pe_symbols::resolved(layout)->Ok_0;
    symbol_laws::resolved_layouts_are_consistent(args.base_address, objects, layout, middle);
    assert(result.sections == layout.sections);
    assert(result.objects == layout.objects);
    headers_fit(args.base_address, objects, layout);
    layout_laws::headers_come_first(args.base_address, objects, layout);
    layout_laws::sections_are_few(args.base_address, objects, layout);
    image_laws::layouts_keep_parts_apart(args.base_address, objects, layout);
    assert(image_laws::parts_are_apart(result)) by {
        assert forall|k: int, c: int|
            #![trigger image_laws::has_contents(result, k, c)]
            image_laws::has_contents(result, k, c) implies result.size_of_headers
            <= image_laws::part_start(result, k, c) && image_laws::part_end(result, k, c)
            <= result.file_size by {
            assert(image_laws::has_contents(layout, k, c));
        }
        assert forall|k: int, c: int, l: int, d: int|
            #![trigger image_laws::has_contents(result, k, c), image_laws::has_contents(result, l, d)]
            image_laws::has_contents(result, k, c) && image_laws::has_contents(result, l, d) && (k
                < l || k == l && c < d) implies image_laws::part_end(result, k, c)
            <= image_laws::part_start(result, l, d) by {
            assert(image_laws::has_contents(layout, k, c));
            assert(image_laws::has_contents(layout, l, d));
        }
    }
    assert forall|k: int| 0 <= k < result.sections.len() implies (
    #[trigger] result.sections[k]).name.len() == 8 by {
        layout_laws::names_have_eight_bytes(args.base_address, objects, layout, k);
    }
    assert forall|k: int|
        0 <= k < result.sections.len() && !(
        #[trigger] result.sections[k]).is_bss implies result.size_of_headers
        <= result.sections[k].file_offset by {
        layout_laws::section_lies_in_file(args.base_address, objects, layout, k);
    }
}

/// An image begins with its headers: each byte in front of the first section is the one that the
/// header writer put there.
pub proof fn linked_images_begin_with_headers(
    args: PeArgs,
    objects: Seq<ObjectView>,
    layout: LayoutView,
    result: LayoutView,
    i: int,
)
    requires
        is_finished_layout_of(result, layout, args, objects),
        pe_link::linked(args, objects) is Ok,
        0 <= i < result.size_of_headers,
    ensures
        pe_link::linked(args, objects)->Ok_0.len() == result.file_size,
        pe_link::linked(args, objects)->Ok_0[i] == pe_writer::with_headers(
            pe_writer::zeros(result.file_size as nat),
            args,
            result,
        )[i],
{
    finished_layouts_fit(args, objects, layout, result);
    image_laws::headers_stay(args, result, i);
}

/// Every field that the headers set can be read back from an image.
pub proof fn linked_header_fields_read_back(
    args: PeArgs,
    objects: Seq<ObjectView>,
    layout: LayoutView,
    result: LayoutView,
    k: int,
)
    requires
        is_finished_layout_of(result, layout, args, objects),
        pe_link::linked(args, objects) is Ok,
        0 <= k < image_laws::header_fields(args, result).len(),
    ensures
        bytes::read(
            pe_link::linked(args, objects)->Ok_0,
            image_laws::header_fields(args, result)[k].offset as int,
            image_laws::header_fields(args, result)[k].width as int,
        ) == image_laws::header_fields(args, result)[k].value,
{
    finished_layouts_fit(args, objects, layout, result);
    let empty = pe_writer::zeros(result.file_size as nat);
    let headers = pe_writer::with_headers(empty, args, result);
    let image = pe_link::linked(args, objects)->Ok_0;
    let field = image_laws::header_fields(args, result)[k];
    image_laws::header_fields_read_back(empty, args, result, k);
    image_laws::lemma_header_fields(args, result);
    image_laws::lemma_with_headers_len(empty, args, result);
    assert(field.offset + field.width <= 200);
    linked_images_begin_with_headers(args, objects, layout, result, 0);
    assert forall|i: int| 0 <= i < result.size_of_headers implies image[i] == headers[i] by {
        linked_images_begin_with_headers(args, objects, layout, result, i);
    }
    let from = field.offset as int;
    let to = from + field.width;
    assert(image.subrange(from, to) =~= headers.subrange(from, to));
}

/// The header of every section can be read back from an image.
pub proof fn linked_section_headers_read_back(
    args: PeArgs,
    objects: Seq<ObjectView>,
    layout: LayoutView,
    result: LayoutView,
    k: int,
)
    requires
        is_finished_layout_of(result, layout, args, objects),
        pe_link::linked(args, objects) is Ok,
        0 <= k < result.sections.len(),
    ensures
        pe_link::linked(args, objects)->Ok_0.subrange(
            pe_writer::section_header_at(k),
            pe_writer::section_header_at(k + 1),
        ) == pe_writer::section_header(result.sections[k]),
{
    finished_layouts_fit(args, objects, layout, result);
    let empty = pe_writer::zeros(result.file_size as nat);
    let headers = pe_writer::with_headers(empty, args, result);
    let image = pe_link::linked(args, objects)->Ok_0;
    image_laws::section_headers_read_back(empty, args, result, k);
    image_laws::lemma_with_headers_len(empty, args, result);
    linked_images_begin_with_headers(args, objects, layout, result, 0);
    assert forall|i: int| 0 <= i < result.size_of_headers implies image[i] == headers[i] by {
        linked_images_begin_with_headers(args, objects, layout, result, i);
    }
    let from = pe_writer::section_header_at(k);
    let to = pe_writer::section_header_at(k + 1);
    assert(image.subrange(from, to) =~= headers.subrange(from, to));
}

/// A byte of an input section that lies in no field of a relocation stands in an image as it is, at
/// the place that the layout gives it; behind the data there are zeros up to the size in memory.
pub proof fn linked_contents_are_copied(
    args: PeArgs,
    objects: Seq<ObjectView>,
    layout: LayoutView,
    result: LayoutView,
    k: int,
    c: int,
    i: int,
)
    requires
        is_finished_layout_of(result, layout, args, objects),
        pe_link::linked(args, objects) is Ok,
        image_laws::has_contents(result, k, c),
        0 <= i < result.sections[k].contributions[c].size,
        image_laws::all_fields_spare(result, image_laws::part_start(result, k, c) + i),
    ensures
        pe_link::linked(args, objects)->Ok_0[image_laws::part_start(result, k, c) + i] == (if i
            < image_laws::part_source(result, k, c).data.len() {
            image_laws::part_source(result, k, c).data[i]
        } else {
            0
        }),
{
    finished_layouts_fit(args, objects, layout, result);
    image_laws::contents_are_copied(args, result, k, c, i);
}

/// A byte of an image that lies behind the headers, in no input section and in no field of a
/// relocation is zero.
pub proof fn linked_rest_is_zero(
    args: PeArgs,
    objects: Seq<ObjectView>,
    layout: LayoutView,
    result: LayoutView,
    i: int,
)
    requires
        is_finished_layout_of(result, layout, args, objects),
        pe_link::linked(args, objects) is Ok,
        pe_writer::section_header_at(result.sections.len() as int) <= i < result.file_size,
        forall|k: int, c: int| #[trigger]
            image_laws::has_contents(result, k, c) ==> image_laws::part_spares(result, k, c, i),
    ensures
        pe_link::linked(args, objects)->Ok_0[i] == 0,
{
    finished_layouts_fit(args, objects, layout, result);
    image_laws::rest_is_zero(args, result, i);
}

/// Where the relocations stay inside of their sections, the field of a relocation holds in an
/// image what the relocation writes, unless a later relocation of its section changes it again.
pub proof fn linked_relocations_are_applied(
    args: PeArgs,
    objects: Seq<ObjectView>,
    layout: LayoutView,
    result: LayoutView,
    k: int,
    c: int,
    m: int,
)
    requires
        is_finished_layout_of(result, layout, args, objects),
        pe_link::linked(args, objects) is Ok,
        image_laws::relocations_stay_inside(result),
        image_laws::has_contents(result, k, c),
        0 <= m < image_laws::part_source(result, k, c).relocations.len(),
        forall|l: int|
            m < l < image_laws::part_source(result, k, c).relocations.len()
                ==> image_laws::fields_are_apart(
                image_laws::part_source(result, k, c).relocations[m],
                #[trigger] image_laws::part_source(result, k, c).relocations[l],
            ),
    ensures
        ({
            let relocation = image_laws::part_source(result, k, c).relocations[m];
            let contribution = result.sections[k].contributions[c];
            let at = pe_reloc::site(result.sections[k], contribution, relocation);
            let data = pe_reloc::patch(result, result.sections[k], contribution, relocation);
            &&& data is Ok
            &&& pe_link::linked(args, objects)->Ok_0.subrange(
                at,
                at + image_laws::field_width(relocation.typ),
            ) == data->Ok_0
        }),
{
    finished_layouts_fit(args, objects, layout, result);
    image_laws::relocated_fields_stay(args, result, k, c, m);
}

/// There is an image only where every relocation of every section with contents refers to an
/// address and has a value that fits in its field.
pub proof fn linked_relocations_have_targets(
    args: PeArgs,
    objects: Seq<ObjectView>,
    layout: LayoutView,
    result: LayoutView,
    k: int,
    c: int,
    m: int,
)
    requires
        is_finished_layout_of(result, layout, args, objects),
        pe_link::linked(args, objects) is Ok,
        image_laws::has_contents(result, k, c),
        0 <= m < image_laws::part_source(result, k, c).relocations.len(),
    ensures
        ({
            let relocation = image_laws::part_source(result, k, c).relocations[m];
            let contribution = result.sections[k].contributions[c];
            &&& pe_symbols::target_address(
                result,
                contribution.object_index as int,
                relocation.target,
            ) is Ok
            &&& pe_reloc::patch(result, result.sections[k], contribution, relocation) is Ok
        }),
{
    image_laws::relocations_succeed(args, result, k, c, m);
}

/// The entry point of an image is the symbol that the first defined candidate leads to.
pub proof fn entry_point_is_first_candidate(
    args: PeArgs,
    objects: Seq<ObjectView>,
    layout: LayoutView,
    result: LayoutView,
    k: int,
)
    requires
        is_finished_layout_of(result, layout, args, objects),
        ({
            let names = pe_symbols::entry_candidates(input::text_of(args.entry), args.is_dll);
            &&& 0 <= k < names.len()
            &&& result.global_definitions.contains_key(names[k])
            &&& forall|l: int|
                0 <= l < k ==> !result.global_definitions.contains_key(#[trigger] names[l])
        }),
    ensures
        ({
            let names = pe_symbols::entry_candidates(input::text_of(args.entry), args.is_dll);
            let (i, s) = result.global_definitions[names[k]];
            &&& pe_symbols::address_of(result, i as int, s as int) is Ok
            &&& result.image_base + result.entry_point_rva == pe_symbols::address_of(
                result,
                i as int,
                s as int,
            )->Ok_0
        }),
{
    let names = pe_symbols::entry_candidates(input::text_of(args.entry), args.is_dll);
    let middle = pe_symbols::resolved(layout)->Ok_0;
    lemma_entry_from(middle, names, 0, k);
    let (i, s) = result.global_definitions[names[k]];
    assert(pe_symbols::address_of(result, i as int, s as int) == pe_symbols::address_of(
        middle,
        i as int,
        s as int,
    ));
}

/// Names that are not defined are passed over.
proof fn lemma_entry_from(layout: LayoutView, names: Seq<Seq<char>>, from: int, k: int)
    requires
        0 <= from <= k < names.len(),
        forall|l: int|
            from <= l < k ==> !layout.global_definitions.contains_key(#[trigger] names[l]),
    ensures
        pe_symbols::entry_from(layout, names, from) == pe_symbols::entry_from(layout, names, k),
    decreases k - from,
{
    if from < k {
        let _ = names[from];
        lemma_entry_from(layout, names, from + 1, k);
    }
}

} // verus!
