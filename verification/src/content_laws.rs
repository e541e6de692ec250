//! What every linked image holds of its inputs, and when there is an image.
use crate::args::PeArgs;
use crate::bytes;
use crate::error::LinkError;
use crate::image_laws;
use crate::input::{InputRelocation, ObjectView, SectionView};
use crate::layout_laws;
use crate::link_laws;
use crate::pe_layout;
use crate::pe_layout::LayoutView;
use crate::pe_link;
use crate::pe_reloc;
use crate::pe_section::{OutputView, SectionContribution};
use crate::pe_symbols;
use crate::pe_writer;
use crate::placement_laws;
use crate::reloc_laws;
use vstd::prelude::*;

verus! {

// ---- from objects to images ----

/// A layout is finished by resolving its symbols and looking for its entry point; nothing else of
/// it changes.
pub proof fn layouts_are_finished_by_symbols_and_entry_point(args: PeArgs, layout: LayoutView)
    ensures
        ({
            let entry = match args.entry {
                Some(name) => Some(name@),
                None => None,
            };
            match (pe_symbols::resolved(layout), pe_link::finished(args, layout)) {
                (Err(e), r) => r == Err::<LayoutView, LinkError>(e),
                (Ok(resolved), Err(e)) => pe_symbols::entry_point(resolved, entry, args.is_dll)
                    == Err::<u32, LinkError>(e),
                (Ok(resolved), Ok(result)) => {
                    &&& pe_symbols::entry_point(resolved, entry, args.is_dll) == Ok::<
                        u32,
                        LinkError,
                    >(result.entry_point_rva)
                    &&& result.image_base == resolved.image_base
                    &&& result.machine == resolved.machine
                    &&& result.sections == resolved.sections
                    &&& result.objects == resolved.objects
                    &&& result.symbol_addresses == resolved.symbol_addresses
                    &&& result.global_definitions == resolved.global_definitions
                    &&& result.size_of_headers == resolved.size_of_headers
                    &&& result.size_of_image == resolved.size_of_image
                    &&& result.file_size == resolved.file_size
                },
            }
        }),
{
}

/// Linking fails with the first error of its steps: that there is nothing to link, that the objects
/// have no layout, or that the layout cannot be finished.
pub proof fn linking_fails_with_the_first_error(args: PeArgs, objects: Seq<ObjectView>)
    ensures
        objects.len() == 0 ==> pe_link::linked(args, objects) == Err::<Seq<u8>, LinkError>(
            LinkError::NoInputs,
        ),
        objects.len() > 0 ==> match pe_layout::layout_of(args.base_address, objects) {
            Err(e) => pe_link::linked(args, objects) == Err::<Seq<u8>, LinkError>(e),
            Ok(layout) => pe_link::finished(args, layout) matches Err(e) ==> pe_link::linked(
                args,
                objects,
            ) == Err::<Seq<u8>, LinkError>(e),
        },
{
}

// ---- parts ----

/// Whether the output section has contents and a `c`-th part.
pub open spec fn has_part(layout: LayoutView, k: int, c: int) -> bool {
    &&& 0 <= k < layout.sections.len()
    &&& !layout.sections[k].is_bss
    &&& 0 <= c < layout.sections[k].contributions.len()
}

/// The input section that a part stands for.
pub open spec fn part_of(layout: LayoutView, k: int, c: int) -> SectionView {
    placement_laws::origin(layout.objects, layout.sections[k].contributions[c])
}

/// Where a part starts in the file.
pub open spec fn start_of(layout: LayoutView, k: int, c: int) -> int {
    layout.sections[k].file_offset + layout.sections[k].contributions[c].output_offset
}

/// The number of bytes that a relocation of this type changes.
pub open spec fn width_of(typ: u16) -> int {
    if typ == 0 {
        0
    } else if typ == 1 {
        8
    } else if typ == 10 {
        2
    } else {
        4
    }
}

/// Whether the `m`-th relocation of a part changes the byte of the file.
pub open spec fn changes(layout: LayoutView, k: int, c: int, m: int, at: int) -> bool {
    let relocation = part_of(layout, k, c).relocations[m];
    let from = start_of(layout, k, c) + relocation.offset;
    from <= at < from + width_of(relocation.typ)
}

/// Whether no relocation of any part changes the byte of the file.
pub open spec fn is_unchanged(layout: LayoutView, at: int) -> bool {
    forall|k: int, c: int, m: int|
        has_part(layout, k, c) && 0 <= m < part_of(layout, k, c).relocations.len()
            ==> !#[trigger] changes(layout, k, c, m, at)
}

/// Bytes that no relocation changes.
proof fn lemma_unchanged(layout: LayoutView, at: int)
    requires
        is_unchanged(layout, at),
    ensures
        image_laws::all_fields_spare(layout, at),
{
    assert forall|k: int, c: int| #[trigger] image_laws::has_contents(layout, k, c) implies
        image_laws::fields_spare(layout, k, c, at) by {
        assert(has_part(layout, k, c));
        assert forall|m: int|
            0 <= m < image_laws::part_source(layout, k, c).relocations.len() implies
            !image_laws::is_in_field(
            layout.sections[k],
            layout.sections[k].contributions[c],
            #[trigger] image_laws::part_source(layout, k, c).relocations[m],
            at,
        ) by {
            assert(!changes(layout, k, c, m, at));
        }
    }
}

/// The bytes of a part stand in the image as they stand in the input section, at the place that the
/// layout gives it, as far as no relocation changes them; behind the data there are zeros, as long
/// as the part.
pub proof fn parts_hold_the_data_of_their_sections(
    args: PeArgs,
    objects: Seq<ObjectView>,
    layout: LayoutView,
    result: LayoutView,
    k: int,
    c: int,
    i: int,
)
    requires
        link_laws::is_finished_layout_of(result, layout, args, objects),
        pe_link::linked(args, objects) is Ok,
        has_part(result, k, c),
        0 <= i < result.sections[k].contributions[c].size,
        is_unchanged(result, start_of(result, k, c) + i),
    ensures
        pe_link::linked(args, objects)->Ok_0[start_of(result, k, c) + i] == (if i < part_of(
            result,
            k,
            c,
        ).data.len() {
            part_of(result, k, c).data[i]
        } else {
            0
        }),
{
    lemma_unchanged(result, start_of(result, k, c) + i);
    assert(image_laws::has_contents(result, k, c));
    link_laws::linked_contents_are_copied(args, objects, layout, result, k, c, i);
}

/// All other bytes behind the headers are zero, unless a relocation changes them.
pub proof fn bytes_between_parts_are_zero(
    args: PeArgs,
    objects: Seq<ObjectView>,
    layout: LayoutView,
    result: LayoutView,
    at: int,
)
    requires
        link_laws::is_finished_layout_of(result, layout, args, objects),
        pe_link::linked(args, objects) is Ok,
        328 + 40 * result.sections.len() <= at < result.file_size,
        is_unchanged(result, at),
        forall|k: int, c: int|
            #[trigger] has_part(result, k, c) ==> at < start_of(result, k, c) || start_of(
                result,
                k,
                c,
            ) + result.sections[k].contributions[c].size <= at,
    ensures
        pe_link::linked(args, objects)->Ok_0[at] == 0,
{
    lemma_unchanged(result, at);
    assert forall|k: int, c: int| #[trigger] image_laws::has_contents(result, k, c) implies
        image_laws::part_spares(result, k, c, at) by {
        assert(has_part(result, k, c));
    }
    link_laws::linked_rest_is_zero(args, objects, layout, result, at);
}

// ---- relocated fields ----

/// Whether all relocations of all parts stay inside of their parts.
pub open spec fn relocations_stay_inside(layout: LayoutView) -> bool {
    forall|k: int, c: int, m: int|
        has_part(layout, k, c) && 0 <= m < part_of(layout, k, c).relocations.len()
            ==> #[trigger] stays_inside(layout, k, c, m)
}

/// Whether a relocation stays inside of its part.
pub open spec fn stays_inside(layout: LayoutView, k: int, c: int, m: int) -> bool {
    part_of(layout, k, c).relocations[m].offset + width_of(part_of(layout, k, c).relocations[m].typ)
        <= layout.sections[k].contributions[c].size
}

/// Whether two relocations change different bytes of their part.
pub open spec fn are_apart(a: InputRelocation, b: InputRelocation) -> bool {
    a.offset + width_of(a.typ) <= b.offset || b.offset + width_of(b.typ) <= a.offset
}

/// In an image whose relocations stay inside of their sections, every field of a relocation that no
/// later one changes holds what its type asks for: the address of the target, its distance from
/// the image base, from the end of the instruction or from the start of the output section.
pub proof fn fields_refer_to_their_targets(
    args: PeArgs,
    objects: Seq<ObjectView>,
    layout: LayoutView,
    result: LayoutView,
    k: int,
    c: int,
    m: int,
)
    requires
        link_laws::is_finished_layout_of(result, layout, args, objects),
        pe_link::linked(args, objects) is Ok,
        relocations_stay_inside(result),
        has_part(result, k, c),
        0 <= m < part_of(result, k, c).relocations.len(),
        forall|l: int|
            m < l < part_of(result, k, c).relocations.len() ==> are_apart(
                part_of(result, k, c).relocations[m],
                #[trigger] part_of(result, k, c).relocations[l],
            ),
    ensures
        ({
            let image = pe_link::linked(args, objects)->Ok_0;
            let part = result.sections[k].contributions[c];
            let relocation = part_of(result, k, c).relocations[m];
            let at = start_of(result, k, c) + relocation.offset;
            let address = result.image_base + result.sections[k].virtual_address
                + part.output_offset + relocation.offset;
            let target = pe_symbols::target_address(
                result,
                part.object_index as int,
                relocation.target,
            );
            &&& target is Ok
            &&& relocation.typ <= 11
            &&& relocation.typ == 1 ==> bytes::read(image, at, 8) == target->Ok_0
            &&& relocation.typ == 2 ==> bytes::read(image, at, 4) == target->Ok_0
            &&& relocation.typ == 3 ==> result.image_base + bytes::read(image, at, 4)
                == target->Ok_0
            &&& 4 <= relocation.typ <= 9 ==> {
                let stored = bytes::read(image, at, 4);
                let ahead = if stored < 0x8000_0000 {
                    stored
                } else {
                    stored - 0x1_0000_0000
                };
                address + relocation.typ + ahead == target->Ok_0
            }
            &&& relocation.typ == 11 ==> result.image_base + result.sections[k].virtual_address
                + bytes::read(image, at, 4) == target->Ok_0
        }),
{
    let image = pe_link::linked(args, objects)->Ok_0;
    let output = result.sections[k];
    let part = output.contributions[c];
    let relocation = part_of(result, k, c).relocations[m];
    let at = start_of(result, k, c) + relocation.offset;
    assert(image_laws::has_contents(result, k, c));
    assert(image_laws::relocations_stay_inside(result)) by {
        assert forall|a: int, b: int, l: int|
            #![trigger image_laws::has_contents(result, a, b), image_laws::part_source(result, a, b).relocations[l]]
            image_laws::has_contents(result, a, b) && 0 <= l < image_laws::part_source(
                result,
                a,
                b,
            ).relocations.len() implies image_laws::part_source(result, a, b).relocations[l].offset
            + image_laws::field_width(image_laws::part_source(result, a, b).relocations[l].typ)
            <= result.sections[a].contributions[b].size by {
            assert(has_part(result, a, b));
            assert(stays_inside(result, a, b, l));
        }
    }
    assert forall|l: int|
        m < l < image_laws::part_source(result, k, c).relocations.len() implies
        image_laws::fields_are_apart(
        image_laws::part_source(result, k, c).relocations[m],
        #[trigger] image_laws::part_source(result, k, c).relocations[l],
    ) by {
        assert(are_apart(relocation, part_of(result, k, c).relocations[l]));
    }
    link_laws::linked_relocations_are_applied(args, objects, layout, result, k, c, m);
    link_laws::finished_layouts_fit(args, objects, layout, result);
    assert(stays_inside(result, k, c, m));
    link_laws::linked_relocations_have_targets(args, objects, layout, result, k, c, m);
    let target = pe_symbols::target_address(
        result,
        part.object_index as int,
        relocation.target,
    )->Ok_0;
    link_laws::linked_images_begin_with_headers(args, objects, layout, result, 0);
    lemma_patched_field(image, result, output, part, relocation, target);
}

/// A field that holds the bytes of a relocation holds what its type asks for.
proof fn lemma_patched_field(
    image: Seq<u8>,
    layout: LayoutView,
    output: OutputView,
    part: SectionContribution,
    relocation: InputRelocation,
    target: u64,
)
    requires
        pe_symbols::target_address(layout, part.object_index as int, relocation.target) == Ok::<
            u64,
            LinkError,
        >(target),
        pe_reloc::patch(layout, output, part, relocation) is Ok,
        ({
            let at = output.file_offset + part.output_offset + relocation.offset;
            &&& relocation.typ != 0 ==> at + width_of(relocation.typ) <= image.len()
            &&& image.subrange(at, at + width_of(relocation.typ)) == pe_reloc::patch(
                layout,
                output,
                part,
                relocation,
            )->Ok_0
        }),
    ensures
        ({
            let at = output.file_offset + part.output_offset + relocation.offset;
            let address = layout.image_base + output.virtual_address + part.output_offset
                + relocation.offset;
            &&& relocation.typ <= 11
            &&& relocation.typ == 1 ==> bytes::read(image, at, 8) == target
            &&& relocation.typ == 2 ==> bytes::read(image, at, 4) == target
            &&& relocation.typ == 3 ==> layout.image_base + bytes::read(image, at, 4) == target
            &&& 4 <= relocation.typ <= 9 ==> {
                let stored = bytes::read(image, at, 4);
                let ahead = if stored < 0x8000_0000 {
                    stored
                } else {
                    stored - 0x1_0000_0000
                };
                address + relocation.typ + ahead == target
            }
            &&& relocation.typ == 11 ==> layout.image_base + output.virtual_address + bytes::read(
                image,
                at,
                4,
            ) == target
        }),
{
    let at = output.file_offset + part.output_offset + relocation.offset;
    let width = width_of(relocation.typ);
    reloc_laws::relocations_store_what_their_type_asks_for(
        image,
        layout,
        output,
        part,
        relocation,
        target,
    );
    let data = pe_reloc::patch(layout, output, part, relocation)->Ok_0;
    if relocation.typ != 0 && data.len() > 0 {
        let after = bytes::put(image, at, data);
        assert(after =~= image) by {
            assert forall|i: int| 0 <= i < image.len() implies #[trigger] after[i] == image[i] by {
                if at <= i < at + data.len() {
                    assert(image.subrange(at, at + width)[i - at] == image[i]);
                }
            }
        }
    }
}

// ---- when there is an image ----

/// Whether every relocation of every part succeeds, on any file of the right length.
pub open spec fn relocations_succeed(layout: LayoutView) -> bool {
    forall|k: int, c: int, m: int, buf: Seq<u8>|
        has_part(layout, k, c) && 0 <= m < part_of(layout, k, c).relocations.len() && buf.len()
            == layout.file_size ==> (#[trigger] pe_reloc::with_relocation(
            buf,
            layout,
            layout.sections[k],
            layout.sections[k].contributions[c],
            part_of(layout, k, c).relocations[m],
        )) is Ok
}

/// Relocations that succeed one by one succeed together.
proof fn lemma_relocations_together(layout: LayoutView, k: int, c: int, buf: Seq<u8>, n: int)
    requires
        relocations_succeed(layout),
        has_part(layout, k, c),
        0 <= n <= part_of(layout, k, c).relocations.len(),
        buf.len() == layout.file_size,
    ensures
        ({
            let r = pe_reloc::relocated(
                buf,
                layout,
                layout.sections[k],
                layout.sections[k].contributions[c],
                part_of(layout, k, c).relocations,
                n,
            );
            r is Ok && r->Ok_0.len() == buf.len()
        }),
    decreases n,
{
    if n > 0 {
        lemma_relocations_together(layout, k, c, buf, n - 1);
        let relocations = part_of(layout, k, c).relocations;
        let output = layout.sections[k];
        let part = output.contributions[c];
        let before = pe_reloc::relocated(buf, layout, output, part, relocations, n - 1)->Ok_0;
        assert(pe_reloc::with_relocation(before, layout, output, part, relocations[n - 1]) is Ok);
        image_laws::relocation_changes_only_its_field(
            before,
            layout,
            output,
            part,
            relocations[n - 1],
        );
    }
}

/// Parts whose relocations succeed can be written.
proof fn lemma_contents_succeed(layout: LayoutView, buf: Seq<u8>, k: int, c: int)
    requires
        relocations_succeed(layout),
        image_laws::parts_are_apart(layout),
        layout.file_size <= usize::MAX,
        buf.len() == layout.file_size,
        0 <= k <= layout.sections.len(),
        k == layout.sections.len() ==> c == 0,
        k < layout.sections.len() ==> 0 <= c <= layout.sections[k].contributions.len(),
        c > 0 ==> !layout.sections[k].is_bss,
    ensures
        ({
            let r = pe_writer::with_contents(buf, layout, k, c);
            r is Ok && r->Ok_0.len() == buf.len()
        }),
    decreases k, c,
{
    if c > 0 {
        lemma_contents_succeed(layout, buf, k, c - 1);
        let before = pe_writer::with_contents(buf, layout, k, c - 1)->Ok_0;
        let output = layout.sections[k];
        let part = output.contributions[c - 1];
        assert(has_part(layout, k, c - 1));
        assert(image_laws::has_contents(layout, k, c - 1));
        assert(image_laws::part_end(layout, k, c - 1) <= layout.file_size);
        let data = pe_writer::contribution_data(layout, part);
        let at = pe_writer::contribution_at(output, part);
        lemma_relocations_together(
            layout,
            k,
            c - 1,
            bytes::put(before, at, data),
            part_of(layout, k, c - 1).relocations.len() as int,
        );
    } else if k > 0 {
        if layout.sections[k - 1].is_bss {
            lemma_contents_succeed(layout, buf, k - 1, 0);
        } else {
            lemma_contents_succeed(
                layout,
                buf,
                k - 1,
                layout.sections[k - 1].contributions.len() as int,
            );
        }
    }
}

/// There is an image wherever the layout can be finished and every relocation succeeds.
pub proof fn images_need_nothing_but_relocations(
    args: PeArgs,
    objects: Seq<ObjectView>,
    layout: LayoutView,
    result: LayoutView,
)
    requires
        link_laws::is_finished_layout_of(result, layout, args, objects),
        objects.len() > 0,
        relocations_succeed(result),
    ensures
        pe_link::linked(args, objects) is Ok,
{
    link_laws::finished_layouts_fit(args, objects, layout, result);
    layout_laws::headers_come_first(args.base_address, objects, layout);
    layouts_are_finished_by_symbols_and_entry_point(args, layout);
    let empty = pe_writer::zeros(result.file_size as nat);
    let buf = pe_writer::with_headers(empty, args, result);
    image_laws::lemma_with_headers_len(empty, args, result);
    lemma_contents_succeed(result, buf, result.sections.len() as int, 0);
}

} // verus!
