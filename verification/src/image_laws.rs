//! What holds of every image that is written.
use crate::args::PeArgs;
use crate::bytes;
use crate::error::LinkError;
use crate::input::{InputRelocation, ObjectView, SectionView};
use crate::layout_laws;
use crate::pe;
use crate::pe_grouping;
use crate::pe_layout::LayoutView;
use crate::pe_reloc;
use crate::pe_section::{OutputView, SectionContribution};
use crate::pe_symbols;
use crate::pe_writer;
use crate::pe_writer::HeaderField;
use vstd::arithmetic::power;
use vstd::prelude::*;

verus! {

// ---- relocations ----

/// The bytes of the field that a relocation of this type changes.
pub open spec fn field_width(typ: u16) -> int {
    if typ == pe::IMAGE_REL_AMD64_ABSOLUTE {
        0
    } else if typ == pe::IMAGE_REL_AMD64_ADDR64 {
        8
    } else if typ == pe::IMAGE_REL_AMD64_SECTION {
        2
    } else {
        4
    }
}

/// A relocation writes as many bytes as its field has.
proof fn lemma_patch_len(
    layout: LayoutView,
    output: OutputView,
    contribution: SectionContribution,
    relocation: InputRelocation,
)
    ensures
        pe_reloc::patch(layout, output, contribution, relocation) matches Ok(data) ==> data.len()
            == field_width(relocation.typ),
{
    broadcast use bytes::le_bytes_len;

}

/// A relocation changes its field and nothing else.
pub proof fn relocation_changes_only_its_field(
    buf: Seq<u8>,
    layout: LayoutView,
    output: OutputView,
    contribution: SectionContribution,
    relocation: InputRelocation,
)
    requires
        pe_reloc::with_relocation(buf, layout, output, contribution, relocation) is Ok,
    ensures
        ({
            let after = pe_reloc::with_relocation(
                buf,
                layout,
                output,
                contribution,
                relocation,
            )->Ok_0;
            let at = pe_reloc::site(output, contribution, relocation);
            let width = field_width(relocation.typ);
            &&& pe_reloc::patch(layout, output, contribution, relocation) is Ok
            &&& after.len() == buf.len()
            &&& width > 0 ==> at + width <= buf.len()
            &&& forall|i: int|
                0 <= i < buf.len() ==> #[trigger] after[i] == (if at <= i < at + width {
                    pe_reloc::patch(layout, output, contribution, relocation)->Ok_0[i - at]
                } else {
                    buf[i]
                })
        }),
{
    lemma_patch_len(layout, output, contribution, relocation);
}

/// A relative relocation stores the distance from the end of its instruction to the target: the
/// address of the field, plus four and the bytes behind the field, plus the stored distance is the
/// target.
pub proof fn relative_relocation_reaches_target(
    buf: Seq<u8>,
    layout: LayoutView,
    output: OutputView,
    contribution: SectionContribution,
    relocation: InputRelocation,
)
    requires
        pe::IMAGE_REL_AMD64_REL32 <= relocation.typ <= pe::IMAGE_REL_AMD64_REL32_5,
        pe_reloc::with_relocation(buf, layout, output, contribution, relocation) is Ok,
    ensures
        ({
            let after = pe_reloc::with_relocation(
                buf,
                layout,
                output,
                contribution,
                relocation,
            )->Ok_0;
            let at = pe_reloc::site(output, contribution, relocation);
            let target = pe_symbols::target_address(
                layout,
                contribution.object_index as int,
                relocation.target,
            );
            &&& target is Ok
            &&& pe_reloc::site_address(layout, output, contribution, relocation) + 4 + (
            relocation.typ - pe::IMAGE_REL_AMD64_REL32) + signed_32(bytes::read(after, at, 4))
                == target->Ok_0
        }),
{
    let at = pe_reloc::site(output, contribution, relocation);
    let target = pe_symbols::target_address(
        layout,
        contribution.object_index as int,
        relocation.target,
    );
    let reloc_va = pe_reloc::site_address(layout, output, contribution, relocation);
    let value = pe_reloc::distance(target->Ok_0, reloc_va as u64, relocation.typ as int);
    let stored = pe_reloc::two_complement(value);
    bytes::le_bytes_len(stored, 4);
    lemma_pow256();
    bytes::put_then_read(buf, at, stored, 4);
}

/// The signed number with these 32 bits.
pub open spec fn signed_32(bits: int) -> int {
    if bits >= 0x8000_0000 {
        bits - 0x1_0000_0000
    } else {
        bits
    }
}

/// Powers of 256.
pub proof fn lemma_pow256()
    ensures
        power::pow(256, 0) == 1,
        power::pow(256, 1) == 0x100,
        power::pow(256, 2) == 0x1_0000,
        power::pow(256, 4) == 0x1_0000_0000,
        power::pow(256, 8) == 0x1_0000_0000_0000_0000,
{
    reveal(power::pow);
    assert(power::pow(256, 0) == 1);
    assert(power::pow(256, 1) == 256 * power::pow(256, 0));
    assert(power::pow(256, 2) == 256 * power::pow(256, 1));
    assert(power::pow(256, 3) == 256 * power::pow(256, 2));
    assert(power::pow(256, 4) == 256 * power::pow(256, 3));
    assert(power::pow(256, 5) == 256 * power::pow(256, 4));
    assert(power::pow(256, 6) == 256 * power::pow(256, 5));
    assert(power::pow(256, 7) == 256 * power::pow(256, 6));
    assert(power::pow(256, 8) == 256 * power::pow(256, 7));
}

/// An absolute relocation stores the address of the target; one relative to the image base stores
/// the distance from there, and one relative to the section the distance from the start of the
/// output section.
pub proof fn absolute_relocation_stores_target(
    buf: Seq<u8>,
    layout: LayoutView,
    output: OutputView,
    contribution: SectionContribution,
    relocation: InputRelocation,
)
    requires
        pe_reloc::with_relocation(buf, layout, output, contribution, relocation) is Ok,
    ensures
        ({
            let after = pe_reloc::with_relocation(
                buf,
                layout,
                output,
                contribution,
                relocation,
            )->Ok_0;
            let at = pe_reloc::site(output, contribution, relocation);
            let target = pe_symbols::target_address(
                layout,
                contribution.object_index as int,
                relocation.target,
            );
            &&& target is Ok
            &&& relocation.typ == pe::IMAGE_REL_AMD64_ADDR64 ==> bytes::read(after, at, 8)
                == target->Ok_0
            &&& relocation.typ == pe::IMAGE_REL_AMD64_ADDR32 ==> bytes::read(after, at, 4)
                == target->Ok_0
            &&& relocation.typ == pe::IMAGE_REL_AMD64_ADDR32NB ==> layout.image_base + bytes::read(
                after,
                at,
                4,
            ) == target->Ok_0
            &&& relocation.typ == pe::IMAGE_REL_AMD64_SECREL ==> layout.image_base
                + output.virtual_address + bytes::read(after, at, 4) == target->Ok_0
        }),
{
    let at = pe_reloc::site(output, contribution, relocation);
    let target = pe_symbols::target_address(
        layout,
        contribution.object_index as int,
        relocation.target,
    );
    lemma_pow256();
    broadcast use bytes::le_bytes_len;

    if relocation.typ == pe::IMAGE_REL_AMD64_ADDR64 {
        bytes::put_then_read(buf, at, target->Ok_0 as int, 8);
    } else if relocation.typ == pe::IMAGE_REL_AMD64_ADDR32 {
        bytes::put_then_read(buf, at, target->Ok_0 as int, 4);
    } else if relocation.typ == pe::IMAGE_REL_AMD64_ADDR32NB {
        bytes::put_then_read(buf, at, target->Ok_0 - layout.image_base, 4);
    } else if relocation.typ == pe::IMAGE_REL_AMD64_SECREL {
        bytes::put_then_read(
            buf,
            at,
            target->Ok_0 - (layout.image_base + output.virtual_address),
            4,
        );
    }
}

/// A section relocation stores the number of an output section, counted from one.
pub proof fn section_relocation_stores_number(
    buf: Seq<u8>,
    layout: LayoutView,
    output: OutputView,
    contribution: SectionContribution,
    relocation: InputRelocation,
)
    requires
        relocation.typ == pe::IMAGE_REL_AMD64_SECTION,
        pe_reloc::with_relocation(buf, layout, output, contribution, relocation) is Ok,
    ensures
        ({
            let after = pe_reloc::with_relocation(
                buf,
                layout,
                output,
                contribution,
                relocation,
            )->Ok_0;
            let number = pe_reloc::section_number(
                layout,
                contribution.object_index as int,
                relocation.target,
            );
            &&& number is Ok
            &&& bytes::read(after, pe_reloc::site(output, contribution, relocation), 2)
                == number->Ok_0
        }),
{
    let at = pe_reloc::site(output, contribution, relocation);
    let number = pe_reloc::section_number(
        layout,
        contribution.object_index as int,
        relocation.target,
    );
    lemma_pow256();
    bytes::le_bytes_len(number->Ok_0 as int, 2);
    bytes::put_then_read(buf, at, number->Ok_0 as int, 2);
}

// ---- headers ----

/// All header fields in front of the data directories.
pub open spec fn header_fields(args: PeArgs, layout: LayoutView) -> Seq<HeaderField> {
    pe_writer::file_fields(args, layout) + pe_writer::optional_fields(args, layout)
}

/// Header fields come one behind the other, in front of the data directories, and each value fits
/// in its field.
pub proof fn lemma_header_fields(args: PeArgs, layout: LayoutView)
    ensures
        header_fields(args, layout).len() == 34,
        forall|k: int|
            0 <= k < 34 ==> {
                let field = #[trigger] header_fields(args, layout)[k];
                &&& field.offset + field.width <= 200
                &&& field.value < power::pow(256, field.width as nat)
            },
        forall|k: int|
            0 < k < 34 ==> header_fields(args, layout)[k - 1].offset + header_fields(
                args,
                layout,
            )[k - 1].width <= (#[trigger] header_fields(args, layout)[k]).offset,
{
    lemma_pow256();
    let first = pe_writer::file_fields(args, layout);
    let second = pe_writer::optional_fields(args, layout);
    assert(first.len() == 10);
    assert(second.len() == 24);
    let all = header_fields(args, layout);
    assert forall|k: int| 0 <= k < 34 implies {
        let field = #[trigger] all[k];
        &&& field.offset + field.width <= 200
        &&& field.value < power::pow(256, field.width as nat)
    } by {
        if k < 10 {
            assert(all[k] == first[k]);
        } else {
            assert(all[k] == second[k - 10]);
        }
    }
    assert forall|k: int| 0 < k < 34 implies all[k - 1].offset + all[k - 1].width <= (
    #[trigger] all[k]).offset by {
        if k < 10 {
            assert(all[k] == first[k] && all[k - 1] == first[k - 1]);
        } else if k == 10 {
            assert(all[k] == second[0] && all[k - 1] == first[9]);
        } else {
            assert(all[k] == second[k - 10] && all[k - 1] == second[k - 11]);
        }
    }
}

/// Of two header fields, one ends before the other starts.
proof fn lemma_header_fields_apart(args: PeArgs, layout: LayoutView, k: int, l: int)
    requires
        0 <= k < l < 34,
    ensures
        header_fields(args, layout)[k].offset + header_fields(args, layout)[k].width
            <= header_fields(args, layout)[l].offset,
    decreases l,
{
    lemma_header_fields(args, layout);
    let _ = header_fields(args, layout)[l];
    if k < l - 1 {
        lemma_header_fields_apart(args, layout, k, l - 1);
    }
}

/// A field keeps its value while later ones are written.
proof fn lemma_field_stays(buf: Seq<u8>, args: PeArgs, layout: LayoutView, k: int, n: int)
    requires
        200 <= buf.len(),
        0 <= k < n <= 34,
    ensures
        ({
            let fields = header_fields(args, layout);
            &&& pe_writer::with_fields(buf, fields, n).len() == buf.len()
            &&& bytes::read(
                pe_writer::with_fields(buf, fields, n),
                fields[k].offset as int,
                fields[k].width as int,
            ) == fields[k].value
        }),
    decreases n,
{
    lemma_header_fields(args, layout);
    let fields = header_fields(args, layout);
    let _ = fields[k];
    let last = fields[n - 1];
    bytes::le_bytes_len(last.value as int, last.width as nat);
    let before = pe_writer::with_fields(buf, fields, n - 1);
    pe_writer::lemma_with_fields_len(buf, fields, n - 1);
    if k == n - 1 {
        bytes::put_then_read(
            before,
            last.offset as int,
            last.value as int,
            last.width as nat,
        );
    } else {
        lemma_field_stays(buf, args, layout, k, n - 1);
        lemma_header_fields_apart(args, layout, k, n - 1);
        bytes::put_keeps_rest(
            before,
            last.offset as int,
            bytes::le_bytes(last.value as int, last.width as nat),
            fields[k].offset as int,
            fields[k].width as int,
        );
    }
}

/// Section headers leave what is in front of them and behind them alone.
pub proof fn lemma_section_headers_frame(buf: Seq<u8>, sections: Seq<OutputView>, n: int)
    requires
        0 <= n <= sections.len(),
        forall|k: int| 0 <= k < sections.len() ==> (#[trigger] sections[k]).name.len() == 8,
    ensures
        pe_writer::with_section_headers(buf, sections, n).len() == buf.len(),
        forall|i: int|
            0 <= i < buf.len() && (i < 328 || pe_writer::section_header_at(n) <= i)
                ==> #[trigger] pe_writer::with_section_headers(buf, sections, n)[i] == buf[i],
    decreases n,
{
    if n > 0 {
        lemma_section_headers_frame(buf, sections, n - 1);
        let _ = sections[n - 1];
        pe_writer::lemma_section_header_len(sections[n - 1]);
    }
}

/// Headers have one length and one value per field, so that they can be read back: every field
/// that the headers set holds its value.
pub proof fn header_fields_read_back(buf: Seq<u8>, args: PeArgs, layout: LayoutView, k: int)
    requires
        pe_writer::headers_error(buf.len() as int, layout) is None,
        forall|l: int|
            0 <= l < layout.sections.len() ==> (#[trigger] layout.sections[l]).name.len() == 8,
        0 <= k < header_fields(args, layout).len(),
    ensures
        bytes::read(
            pe_writer::with_headers(buf, args, layout),
            header_fields(args, layout)[k].offset as int,
            header_fields(args, layout)[k].width as int,
        ) == header_fields(args, layout)[k].value,
{
    lemma_header_fields(args, layout);
    let fields = header_fields(args, layout);
    let _ = fields[k];
    lemma_field_stays(buf, args, layout, k, 34);
    let numbers = pe_writer::with_fields(buf, fields, 34);
    bytes::put_keeps_rest(
        numbers,
        200,
        pe_writer::zeros(128),
        fields[k].offset as int,
        fields[k].width as int,
    );
    let fixed = bytes::put(numbers, 200, pe_writer::zeros(128));
    lemma_section_headers_frame(fixed, layout.sections, layout.sections.len() as int);
    let all = pe_writer::with_headers(buf, args, layout);
    let from = fields[k].offset as int;
    let to = from + fields[k].width;
    assert(all.subrange(from, to) =~= fixed.subrange(from, to));
}

/// A section header stays while later ones are written.
proof fn lemma_section_header_stays(buf: Seq<u8>, sections: Seq<OutputView>, k: int, n: int)
    requires
        0 <= k < n <= sections.len(),
        pe_writer::section_header_at(n) <= buf.len(),
        forall|l: int| 0 <= l < sections.len() ==> (#[trigger] sections[l]).name.len() == 8,
    ensures
        pe_writer::with_section_headers(buf, sections, n).len() == buf.len(),
        pe_writer::with_section_headers(buf, sections, n).subrange(
            pe_writer::section_header_at(k),
            pe_writer::section_header_at(k + 1),
        ) == pe_writer::section_header(sections[k]),
    decreases n,
{
    let _ = sections[n - 1];
    let _ = sections[k];
    pe_writer::lemma_section_header_len(sections[n - 1]);
    pe_writer::lemma_section_header_len(sections[k]);
    lemma_section_headers_frame(buf, sections, n - 1);
    let after = pe_writer::with_section_headers(buf, sections, n);
    let from = pe_writer::section_header_at(k);
    let to = pe_writer::section_header_at(k + 1);
    if k == n - 1 {
        assert(after.subrange(from, to) =~= pe_writer::section_header(sections[k]));
    } else {
        lemma_section_header_stays(buf, sections, k, n - 1);
        assert(after.subrange(from, to) =~= pe_writer::with_section_headers(
            buf,
            sections,
            n - 1,
        ).subrange(from, to));
    }
}

/// The data directories are all zero.
pub proof fn lemma_empty_directories(buf: Seq<u8>, args: PeArgs, layout: LayoutView)
    requires
        pe_writer::headers_error(buf.len() as int, layout) is None,
        forall|l: int|
            0 <= l < layout.sections.len() ==> (#[trigger] layout.sections[l]).name.len() == 8,
    ensures
        pe_writer::with_headers(buf, args, layout).subrange(200, 328) == pe_writer::zeros(128),
{
    let fields = header_fields(args, layout);
    pe_writer::lemma_with_fields_len(buf, fields, fields.len() as int);
    let fixed = bytes::put(
        pe_writer::with_fields(buf, fields, fields.len() as int),
        200,
        pe_writer::zeros(128),
    );
    lemma_section_headers_frame(fixed, layout.sections, layout.sections.len() as int);
    assert(pe_writer::with_headers(buf, args, layout).subrange(200, 328) =~= pe_writer::zeros(
        128,
    ));
}

/// Behind the data directories, which are all zero, stands the header of every section.
pub proof fn section_headers_read_back(buf: Seq<u8>, args: PeArgs, layout: LayoutView, k: int)
    requires
        pe_writer::headers_error(buf.len() as int, layout) is None,
        forall|l: int|
            0 <= l < layout.sections.len() ==> (#[trigger] layout.sections[l]).name.len() == 8,
        0 <= k < layout.sections.len(),
    ensures
        pe_writer::with_headers(buf, args, layout).subrange(200, 328) == pe_writer::zeros(128),
        pe_writer::with_headers(buf, args, layout).subrange(
            pe_writer::section_header_at(k),
            pe_writer::section_header_at(k + 1),
        ) == pe_writer::section_header(layout.sections[k]),
{
    let fields = header_fields(args, layout);
    pe_writer::lemma_with_fields_len(buf, fields, fields.len() as int);
    let fixed = bytes::put(
        pe_writer::with_fields(buf, fields, fields.len() as int),
        200,
        pe_writer::zeros(128),
    );
    let n = layout.sections.len() as int;
    lemma_section_headers_frame(fixed, layout.sections, n);
    lemma_section_header_stays(fixed, layout.sections, k, n);
    assert(pe_writer::with_headers(buf, args, layout).subrange(200, 328) =~= pe_writer::zeros(
        128,
    ));
}

// ---- contents ----

/// Whether the `k`-th output section has contents and a `c`-th part.
pub open spec fn has_contents(layout: LayoutView, k: int, c: int) -> bool {
    &&& 0 <= k < layout.sections.len()
    &&& !layout.sections[k].is_bss
    &&& 0 <= c < layout.sections[k].contributions.len()
}

/// Where the `c`-th part of the `k`-th output section starts in the file.
pub open spec fn part_start(layout: LayoutView, k: int, c: int) -> int {
    pe_writer::contribution_at(layout.sections[k], layout.sections[k].contributions[c])
}

/// Where it ends.
pub open spec fn part_end(layout: LayoutView, k: int, c: int) -> int {
    part_start(layout, k, c) + layout.sections[k].contributions[c].size
}

/// The input section that it stands for.
pub open spec fn part_source(layout: LayoutView, k: int, c: int) -> SectionView {
    pe_grouping::source(layout.objects, layout.sections[k].contributions[c])
}

/// Whether the parts of the output sections lie behind the headers, inside of the file, and apart.
pub open spec fn parts_are_apart(layout: LayoutView) -> bool {
    &&& forall|k: int, c: int|
        #![trigger has_contents(layout, k, c)]
        has_contents(layout, k, c) ==> layout.size_of_headers <= part_start(layout, k, c)
            && part_end(layout, k, c) <= layout.file_size
    &&& forall|k: int, c: int, l: int, d: int|
        #![trigger has_contents(layout, k, c), has_contents(layout, l, d)]
        has_contents(layout, k, c) && has_contents(layout, l, d) && (k < l || k == l && c < d)
            ==> part_end(layout, k, c) <= part_start(layout, l, d)
}

/// The parts of the output sections of a layout lie behind the headers, inside of the file, and
/// apart.
pub proof fn layouts_keep_parts_apart(
    base_address: Option<u64>,
    objects: Seq<ObjectView>,
    layout: LayoutView,
)
    requires
        layout_laws::is_layout_of(layout, base_address, objects),
    ensures
        parts_are_apart(layout),
{
    assert forall|k: int, c: int|
        #![trigger has_contents(layout, k, c)]
        has_contents(layout, k, c) implies layout.size_of_headers <= part_start(layout, k, c)
        && part_end(layout, k, c) <= layout.file_size by {
        layout_laws::section_lies_in_file(base_address, objects, layout, k);
        layout_laws::contributions_are_apart(base_address, objects, layout, k, c);
    }
    assert forall|k: int, c: int, l: int, d: int|
        #![trigger has_contents(layout, k, c), has_contents(layout, l, d)]
        has_contents(layout, k, c) && has_contents(layout, l, d) && (k < l || k == l && c
            < d) implies part_end(layout, k, c) <= part_start(layout, l, d) by {
        layout_laws::contributions_are_apart(base_address, objects, layout, k, c);
        layout_laws::section_lies_in_file(base_address, objects, layout, k);
        if k < l {
            layout_laws::sections_are_apart(base_address, objects, layout, k, l);
        }
    }
}

/// Whether the fields of all relocations lie inside of the sections that they belong to.
pub open spec fn relocations_stay_inside(layout: LayoutView) -> bool {
    forall|k: int, c: int, m: int|
        #![trigger has_contents(layout, k, c), part_source(layout, k, c).relocations[m]]
        has_contents(layout, k, c) && 0 <= m < part_source(layout, k, c).relocations.len()
            ==> part_source(layout, k, c).relocations[m].offset + field_width(
            part_source(layout, k, c).relocations[m].typ,
        ) <= layout.sections[k].contributions[c].size
}

/// Whether the `i`-th byte of the file lies in the field of a relocation.
pub open spec fn is_in_field(
    output: OutputView,
    contribution: SectionContribution,
    relocation: InputRelocation,
    i: int,
) -> bool {
    let at = pe_reloc::site(output, contribution, relocation);
    at <= i < at + field_width(relocation.typ)
}

/// What the first `n` relocations do not touch stays.
proof fn lemma_relocated_frame(
    buf: Seq<u8>,
    layout: LayoutView,
    output: OutputView,
    contribution: SectionContribution,
    relocations: Seq<InputRelocation>,
    n: int,
    i: int,
)
    requires
        0 <= n <= relocations.len(),
        0 <= i < buf.len(),
        pe_reloc::relocated(buf, layout, output, contribution, relocations, n) is Ok,
        forall|m: int|
            0 <= m < n ==> !is_in_field(output, contribution, #[trigger] relocations[m], i),
    ensures
        ({
            let after = pe_reloc::relocated(
                buf,
                layout,
                output,
                contribution,
                relocations,
                n,
            )->Ok_0;
            after.len() == buf.len() && after[i] == buf[i]
        }),
    decreases n,
{
    if n > 0 {
        lemma_relocated_frame(buf, layout, output, contribution, relocations, n - 1, i);
        let before = pe_reloc::relocated(
            buf,
            layout,
            output,
            contribution,
            relocations,
            n - 1,
        )->Ok_0;
        let _ = relocations[n - 1];
        relocation_changes_only_its_field(
            before,
            layout,
            output,
            contribution,
            relocations[n - 1],
        );
    }
}

/// Relocations change their fields and nothing else: a byte that lies in no field keeps its value,
/// whether all relocations are applied or one of them fails.
pub proof fn relocations_change_only_their_fields(
    buf: Seq<u8>,
    after: Seq<u8>,
    layout: LayoutView,
    output: OutputView,
    contribution: SectionContribution,
    relocations: Seq<InputRelocation>,
    r: Result<(), LinkError>,
    i: int,
)
    requires
        pe_reloc::is_relocated(buf, after, layout, output, contribution, relocations, r),
        0 <= i < buf.len(),
        forall|m: int|
            0 <= m < relocations.len() ==> !is_in_field(
                output,
                contribution,
                #[trigger] relocations[m],
                i,
            ),
    ensures
        after.len() == buf.len(),
        after[i] == buf[i],
{
    let n = match r {
        Ok(()) => relocations.len() as int,
        Err(e) => choose|n: int| #[trigger]
            pe_reloc::stops_at(buf, after, layout, output, contribution, relocations, n, e),
    };
    lemma_relocated_frame(buf, layout, output, contribution, relocations, n, i);
}

/// A single relocation that fails leaves the file as it is.
pub proof fn failed_relocation_changes_nothing(
    buf: Seq<u8>,
    after: Seq<u8>,
    layout: LayoutView,
    output: OutputView,
    contribution: SectionContribution,
    relocation: InputRelocation,
    e: LinkError,
)
    requires
        pe_reloc::is_relocated(
            buf,
            after,
            layout,
            output,
            contribution,
            seq![relocation],
            Err(e),
        ),
    ensures
        after == buf,
        pe_reloc::with_relocation(buf, layout, output, contribution, relocation) == Err::<
            Seq<u8>,
            LinkError,
        >(e),
{
    let n = choose|n: int| #[trigger]
        pe_reloc::stops_at(buf, after, layout, output, contribution, seq![relocation], n, e);
    assert(n == 0);
}

/// Relocations do not change the length of the file.
proof fn lemma_relocated_len(
    buf: Seq<u8>,
    layout: LayoutView,
    output: OutputView,
    contribution: SectionContribution,
    relocations: Seq<InputRelocation>,
    n: int,
)
    requires
        pe_reloc::relocated(buf, layout, output, contribution, relocations, n) is Ok,
    ensures
        pe_reloc::relocated(buf, layout, output, contribution, relocations, n)->Ok_0.len()
            == buf.len(),
    decreases n,
{
    if n > 0 {
        lemma_relocated_len(buf, layout, output, contribution, relocations, n - 1);
        relocation_changes_only_its_field(
            pe_reloc::relocated(buf, layout, output, contribution, relocations, n - 1)->Ok_0,
            layout,
            output,
            contribution,
            relocations[n - 1],
        );
    }
}

/// Contents do not change the length of the file.
proof fn lemma_with_contents_len(buf: Seq<u8>, layout: LayoutView, k: int, c: int)
    requires
        pe_writer::with_contents(buf, layout, k, c) is Ok,
    ensures
        pe_writer::with_contents(buf, layout, k, c)->Ok_0.len() == buf.len(),
    decreases k, c,
{
    if c > 0 {
        lemma_with_contents_len(buf, layout, k, c - 1);
        let before = pe_writer::with_contents(buf, layout, k, c - 1)->Ok_0;
        let output = layout.sections[k];
        let contribution = output.contributions[c - 1];
        let relocations = pe_grouping::source(layout.objects, contribution).relocations;
        lemma_relocated_len(
            bytes::put(
                before,
                pe_writer::contribution_at(output, contribution),
                pe_writer::contribution_data(layout, contribution),
            ),
            layout,
            output,
            contribution,
            relocations,
            relocations.len() as int,
        );
    } else if k > 0 {
        if layout.sections[k - 1].is_bss {
            lemma_with_contents_len(buf, layout, k - 1, 0);
        } else {
            lemma_with_contents_len(
                buf,
                layout,
                k - 1,
                layout.sections[k - 1].contributions.len() as int,
            );
        }
    }
}

/// Contents lie behind the start of their section, whatever the relocations do.
proof fn lemma_with_contents_below(buf: Seq<u8>, layout: LayoutView, k: int, c: int, i: int)
    requires
        0 <= k <= layout.sections.len(),
        k < layout.sections.len() ==> 0 <= c <= layout.sections[k].contributions.len(),
        k == layout.sections.len() ==> c == 0,
        c > 0 ==> !layout.sections[k].is_bss,
        0 <= i < buf.len(),
        pe_writer::with_contents(buf, layout, k, c) is Ok,
        forall|l: int|
            0 <= l < layout.sections.len() && !(#[trigger] layout.sections[l]).is_bss ==> i
                < layout.sections[l].file_offset,
    ensures
        pe_writer::with_contents(buf, layout, k, c)->Ok_0.len() == buf.len(),
        pe_writer::with_contents(buf, layout, k, c)->Ok_0[i] == buf[i],
    decreases k, c,
{
    if c > 0 {
        lemma_with_contents_below(buf, layout, k, c - 1, i);
        let before = pe_writer::with_contents(buf, layout, k, c - 1)->Ok_0;
        let output = layout.sections[k];
        let contribution = output.contributions[c - 1];
        let relocations = pe_grouping::source(layout.objects, contribution).relocations;
        let copied = bytes::put(
            before,
            pe_writer::contribution_at(output, contribution),
            pe_writer::contribution_data(layout, contribution),
        );
        lemma_relocated_frame(
            copied,
            layout,
            output,
            contribution,
            relocations,
            relocations.len() as int,
            i,
        );
    } else if k > 0 {
        if layout.sections[k - 1].is_bss {
            lemma_with_contents_below(buf, layout, k - 1, 0, i);
        } else {
            lemma_with_contents_below(
                buf,
                layout,
                k - 1,
                layout.sections[k - 1].contributions.len() as int,
                i,
            );
        }
    }
}

/// The headers in front of an image are those that were written: neither contents nor relocations
/// reach them.
pub proof fn headers_stay(args: PeArgs, layout: LayoutView, i: int)
    requires
        pe_writer::image(args, layout) is Ok,
        layout.size_of_headers <= layout.file_size,
        forall|l: int|
            0 <= l < layout.sections.len() && !(#[trigger] layout.sections[l]).is_bss
                ==> layout.size_of_headers <= layout.sections[l].file_offset,
        forall|l: int|
            0 <= l < layout.sections.len() ==> (#[trigger] layout.sections[l]).name.len() == 8,
        0 <= i < layout.size_of_headers,
    ensures
        pe_writer::image(args, layout)->Ok_0.len() == layout.file_size,
        pe_writer::image(args, layout)->Ok_0[i] == pe_writer::with_headers(
            pe_writer::zeros(layout.file_size as nat),
            args,
            layout,
        )[i],
{
    let empty = pe_writer::zeros(layout.file_size as nat);
    lemma_with_headers_len(empty, args, layout);
    lemma_with_contents_below(
        pe_writer::with_headers(empty, args, layout),
        layout,
        layout.sections.len() as int,
        0,
        i,
    );
}

/// Headers do not change the length of the file.
pub proof fn lemma_with_headers_len(buf: Seq<u8>, args: PeArgs, layout: LayoutView)
    requires
        forall|l: int|
            0 <= l < layout.sections.len() ==> (#[trigger] layout.sections[l]).name.len() == 8,
    ensures
        pe_writer::with_headers(buf, args, layout).len() == buf.len(),
{
    let fields = header_fields(args, layout);
    pe_writer::lemma_with_fields_len(buf, fields, fields.len() as int);
    let fixed = bytes::put(
        pe_writer::with_fields(buf, fields, fields.len() as int),
        200,
        pe_writer::zeros(128),
    );
    lemma_section_headers_frame(fixed, layout.sections, layout.sections.len() as int);
}

/// Whether the `i`-th byte of the file lies in no field of the relocations of a part.
pub open spec fn fields_spare(layout: LayoutView, k: int, c: int, i: int) -> bool {
    forall|m: int|
        0 <= m < part_source(layout, k, c).relocations.len() ==> !is_in_field(
            layout.sections[k],
            layout.sections[k].contributions[c],
            #[trigger] part_source(layout, k, c).relocations[m],
            i,
        )
}

/// Whether the `i`-th byte of the file lies neither in a part nor in a field of its relocations.
pub open spec fn part_spares(layout: LayoutView, k: int, c: int, i: int) -> bool {
    &&& i < part_start(layout, k, c) || part_end(layout, k, c) <= i
    &&& fields_spare(layout, k, c, i)
}

/// Whether the `i`-th byte of the file lies in no field of any relocation.
pub open spec fn all_fields_spare(layout: LayoutView, i: int) -> bool {
    forall|k: int, c: int| #[trigger] has_contents(layout, k, c) ==> fields_spare(layout, k, c, i)
}

/// Where relocations stay inside of their sections, they touch no byte outside of them.
pub proof fn relocations_inside_spare_the_rest(layout: LayoutView, k: int, c: int, i: int)
    requires
        has_contents(layout, k, c),
        relocations_stay_inside(layout),
        i < part_start(layout, k, c) || part_end(layout, k, c) <= i,
    ensures
        part_spares(layout, k, c, i),
{
    assert forall|m: int| 0 <= m < part_source(layout, k, c).relocations.len() implies !is_in_field(
        layout.sections[k],
        layout.sections[k].contributions[c],
        #[trigger] part_source(layout, k, c).relocations[m],
        i,
    ) by {}
}

/// A byte that a part spares is not changed when the part is written.
proof fn lemma_with_contribution_frame(buf: Seq<u8>, layout: LayoutView, k: int, c: int, i: int)
    requires
        has_contents(layout, k, c),
        0 <= i < buf.len(),
        part_spares(layout, k, c, i),
        pe_writer::with_contribution(
            buf,
            layout,
            layout.sections[k],
            layout.sections[k].contributions[c],
        ) is Ok,
    ensures
        pe_writer::with_contribution(
            buf,
            layout,
            layout.sections[k],
            layout.sections[k].contributions[c],
        )->Ok_0[i] == buf[i],
{
    let output = layout.sections[k];
    let contribution = output.contributions[c];
    let relocations = part_source(layout, k, c).relocations;
    let copied = bytes::put(
        buf,
        pe_writer::contribution_at(output, contribution),
        pe_writer::contribution_data(layout, contribution),
    );
    lemma_relocated_frame(
        copied,
        layout,
        output,
        contribution,
        relocations,
        relocations.len() as int,
        i,
    );
}

/// A byte that is spared by the parts from the `b`-th of section `a` on to the `c`-th of section
/// `k` stays as it is while these are written.
proof fn lemma_with_contents_frame(
    buf: Seq<u8>,
    layout: LayoutView,
    a: int,
    b: int,
    k: int,
    c: int,
    i: int,
)
    requires
        0 <= a <= k <= layout.sections.len(),
        k < layout.sections.len() ==> 0 <= c <= layout.sections[k].contributions.len(),
        k == layout.sections.len() ==> c == 0,
        c > 0 ==> !layout.sections[k].is_bss,
        a < layout.sections.len() ==> 0 <= b <= layout.sections[a].contributions.len(),
        a == layout.sections.len() ==> b == 0,
        b > 0 ==> !layout.sections[a].is_bss,
        a < k || b <= c,
        0 <= i < buf.len(),
        pe_writer::with_contents(buf, layout, k, c) is Ok,
        forall|l: int, d: int|
            #![trigger has_contents(layout, l, d)]
            has_contents(layout, l, d) && !pe_grouping::comes_before(l, d, a, b)
                && pe_grouping::comes_before(l, d, k, c) ==> part_spares(layout, l, d, i),
    ensures
        pe_writer::with_contents(buf, layout, a, b) is Ok,
        pe_writer::with_contents(buf, layout, k, c)->Ok_0[i] == pe_writer::with_contents(
            buf,
            layout,
            a,
            b,
        )->Ok_0[i],
    decreases k, c,
{
    if a == k && b == c {
    } else if c > 0 {
        lemma_with_contents_frame(buf, layout, a, b, k, c - 1, i);
        let before = pe_writer::with_contents(buf, layout, k, c - 1)->Ok_0;
        lemma_with_contents_len(buf, layout, k, c - 1);
        assert(has_contents(layout, k, c - 1));
        lemma_with_contribution_frame(before, layout, k, c - 1, i);
    } else if layout.sections[k - 1].is_bss {
        lemma_with_contents_frame(buf, layout, a, b, k - 1, 0, i);
    } else {
        lemma_with_contents_frame(
            buf,
            layout,
            a,
            b,
            k - 1,
            layout.sections[k - 1].contributions.len() as int,
            i,
        );
    }
}

/// Contents that could all be written could be written up to any part.
proof fn lemma_with_contents_ok(buf: Seq<u8>, layout: LayoutView, a: int, b: int, k: int, c: int)
    requires
        0 <= a <= k <= layout.sections.len(),
        k < layout.sections.len() ==> 0 <= c <= layout.sections[k].contributions.len(),
        k == layout.sections.len() ==> c == 0,
        a < layout.sections.len() ==> 0 <= b <= layout.sections[a].contributions.len(),
        a == layout.sections.len() ==> b == 0,
        b > 0 ==> !layout.sections[a].is_bss,
        a < k || b <= c,
        pe_writer::with_contents(buf, layout, k, c) is Ok,
    ensures
        pe_writer::with_contents(buf, layout, a, b) is Ok,
    decreases k, c,
{
    if a == k && b == c {
    } else if c > 0 {
        lemma_with_contents_ok(buf, layout, a, b, k, c - 1);
    } else if layout.sections[k - 1].is_bss {
        lemma_with_contents_ok(buf, layout, a, b, k - 1, 0);
    } else {
        lemma_with_contents_ok(
            buf,
            layout,
            a,
            b,
            k - 1,
            layout.sections[k - 1].contributions.len() as int,
        );
    }
}

/// The file right before a part is written.
pub open spec fn image_before(args: PeArgs, layout: LayoutView, k: int, c: int) -> Seq<u8> {
    pe_writer::with_contents(
        pe_writer::with_headers(pe_writer::zeros(layout.file_size as nat), args, layout),
        layout,
        k,
        c,
    )->Ok_0
}

/// Whether all other parts spare the `i`-th byte of the file.
spec fn others_spare(layout: LayoutView, k: int, c: int, i: int) -> bool {
    forall|l: int, d: int|
        #![trigger has_contents(layout, l, d)]
        has_contents(layout, l, d) && !(l == k && d == c) ==> part_spares(layout, l, d, i)
}

/// A byte of a part that lies in no field of another part is spared by all others.
proof fn lemma_others_spare(layout: LayoutView, k: int, c: int, i: int)
    requires
        parts_are_apart(layout),
        has_contents(layout, k, c),
        part_start(layout, k, c) <= i < part_end(layout, k, c),
        relocations_stay_inside(layout) || all_fields_spare(layout, i),
    ensures
        others_spare(layout, k, c, i),
{
    assert forall|l: int, d: int|
        #![trigger has_contents(layout, l, d)]
        has_contents(layout, l, d) && !(l == k && d == c) implies part_spares(layout, l, d, i) by {
        if relocations_stay_inside(layout) {
            relocations_inside_spare_the_rest(layout, l, d, i);
        }
    }
}

/// The bytes of a part that all others spare are in the image those that were there when the part
/// had been written and relocated.
proof fn lemma_part_stays(args: PeArgs, layout: LayoutView, k: int, c: int, i: int)
    requires
        pe_writer::image(args, layout) is Ok,
        others_spare(layout, k, c, i),
        forall|l: int|
            0 <= l < layout.sections.len() ==> (#[trigger] layout.sections[l]).name.len() == 8,
        has_contents(layout, k, c),
        0 <= i < layout.file_size,
    ensures
        pe_writer::with_contribution(
            image_before(args, layout, k, c),
            layout,
            layout.sections[k],
            layout.sections[k].contributions[c],
        ) is Ok,
        pe_writer::image(args, layout)->Ok_0[i] == pe_writer::with_contribution(
            image_before(args, layout, k, c),
            layout,
            layout.sections[k],
            layout.sections[k].contributions[c],
        )->Ok_0[i],
        image_before(args, layout, k, c).len() == layout.file_size,
{
    let empty = pe_writer::zeros(layout.file_size as nat);
    let start = pe_writer::with_headers(empty, args, layout);
    let n = layout.sections.len() as int;
    lemma_with_headers_len(empty, args, layout);
    lemma_with_contents_ok(start, layout, k, c + 1, n, 0);
    lemma_with_contents_ok(start, layout, k, c, n, 0);
    lemma_with_contents_len(start, layout, k, c);
    lemma_with_contents_frame(start, layout, k, c + 1, n, 0, i);
}

/// Before a part is written, there are only zeros in its place, where all others spare it.
proof fn lemma_part_is_empty(args: PeArgs, layout: LayoutView, k: int, c: int, i: int)
    requires
        pe_writer::image(args, layout) is Ok,
        others_spare(layout, k, c, i),
        forall|l: int|
            0 <= l < layout.sections.len() ==> (#[trigger] layout.sections[l]).name.len() == 8,
        has_contents(layout, k, c),
        pe_writer::section_header_at(layout.sections.len() as int) <= i < layout.file_size,
    ensures
        image_before(args, layout, k, c)[i] == 0,
{
    let empty = pe_writer::zeros(layout.file_size as nat);
    let start = pe_writer::with_headers(empty, args, layout);
    let n = layout.sections.len() as int;
    lemma_with_headers_len(empty, args, layout);
    lemma_with_contents_ok(start, layout, k, c, n, 0);
    lemma_with_contents_frame(start, layout, 0, 0, k, c, i);
    assert(pe_writer::with_contents(start, layout, 0, 0)->Ok_0 == start);
    lemma_headers_frame(empty, args, layout, i);
}

/// Behind the headers there is what was there before.
proof fn lemma_headers_frame(buf: Seq<u8>, args: PeArgs, layout: LayoutView, i: int)
    requires
        forall|l: int|
            0 <= l < layout.sections.len() ==> (#[trigger] layout.sections[l]).name.len() == 8,
        pe_writer::section_header_at(layout.sections.len() as int) <= i < buf.len(),
    ensures
        pe_writer::with_headers(buf, args, layout)[i] == buf[i],
{
    let fields = header_fields(args, layout);
    let n = fields.len() as int;
    lemma_fields_below(buf, args, layout, n, i);
    pe_writer::lemma_with_fields_len(buf, fields, n);
    let fixed = bytes::put(
        pe_writer::with_fields(buf, fields, n),
        200,
        pe_writer::zeros(128),
    );
    lemma_section_headers_frame(fixed, layout.sections, layout.sections.len() as int);
}

/// The header writer leaves the bytes behind the headers alone, whether the headers can be written
/// or not.
pub proof fn headers_leave_the_rest_alone(buf: Seq<u8>, args: PeArgs, layout: LayoutView, i: int)
    requires
        forall|l: int|
            0 <= l < layout.sections.len() ==> (#[trigger] layout.sections[l]).name.len() == 8,
        pe_writer::section_header_at(layout.sections.len() as int) <= i < buf.len(),
    ensures
        pe_writer::with_headers(buf, args, layout)[i] == buf[i],
        pe_writer::headers_error(buf.len() as int, layout) is Some
            ==> pe_writer::with_fitting_headers(buf, args, layout)[i] == buf[i],
{
    lemma_headers_frame(buf, args, layout, i);
    let first = pe_writer::file_fields(args, layout);
    let n = pe_writer::fitting_fields(buf.len() as int);
    pe_writer::lemma_with_fields_split(buf, first, pe_writer::optional_fields(args, layout), n);
    lemma_fields_below(buf, args, layout, n, i);
}

/// Header fields lie in front of the data directories.
proof fn lemma_fields_below(buf: Seq<u8>, args: PeArgs, layout: LayoutView, n: int, i: int)
    requires
        0 <= n <= header_fields(args, layout).len(),
        200 <= i < buf.len(),
    ensures
        pe_writer::with_fields(buf, header_fields(args, layout), n)[i] == buf[i],
    decreases n,
{
    if n > 0 {
        lemma_fields_below(buf, args, layout, n - 1, i);
        lemma_header_fields(args, layout);
        let fields = header_fields(args, layout);
        let last = fields[n - 1];
        pe_writer::lemma_with_fields_len(buf, fields, n - 1);
        bytes::le_bytes_len(last.value as int, last.width as nat);
    }
}

/// A byte of an input section that lies in no field of a relocation stands in the image as it is;
/// behind the data there are zeros up to the size in memory.
pub proof fn contents_are_copied(args: PeArgs, layout: LayoutView, k: int, c: int, i: int)
    requires
        pe_writer::image(args, layout) is Ok,
        parts_are_apart(layout),
        pe_writer::section_header_at(layout.sections.len() as int) <= layout.size_of_headers,
        forall|l: int|
            0 <= l < layout.sections.len() ==> (#[trigger] layout.sections[l]).name.len() == 8,
        has_contents(layout, k, c),
        0 <= i < layout.sections[k].contributions[c].size,
        all_fields_spare(layout, part_start(layout, k, c) + i),
    ensures
        pe_writer::image(args, layout)->Ok_0[part_start(layout, k, c) + i] == (if i
            < part_source(layout, k, c).data.len() {
            part_source(layout, k, c).data[i]
        } else {
            0
        }),
{
    let at = part_start(layout, k, c) + i;
    lemma_others_spare(layout, k, c, at);
    lemma_part_stays(args, layout, k, c, at);
    lemma_part_is_empty(args, layout, k, c, at);
    let output = layout.sections[k];
    let contribution = output.contributions[c];
    let relocations = part_source(layout, k, c).relocations;
    lemma_relocated_frame(
        bytes::put(
            image_before(args, layout, k, c),
            pe_writer::contribution_at(output, contribution),
            pe_writer::contribution_data(layout, contribution),
        ),
        layout,
        output,
        contribution,
        relocations,
        relocations.len() as int,
        at,
    );
}

/// A byte behind the headers that lies in no part and in no field of a relocation is zero.
pub proof fn rest_is_zero(args: PeArgs, layout: LayoutView, i: int)
    requires
        pe_writer::image(args, layout) is Ok,
        forall|l: int|
            0 <= l < layout.sections.len() ==> (#[trigger] layout.sections[l]).name.len() == 8,
        pe_writer::section_header_at(layout.sections.len() as int) <= i < layout.file_size,
        forall|k: int, c: int| #[trigger]
            has_contents(layout, k, c) ==> part_spares(layout, k, c, i),
    ensures
        pe_writer::image(args, layout)->Ok_0[i] == 0,
{
    let empty = pe_writer::zeros(layout.file_size as nat);
    let start = pe_writer::with_headers(empty, args, layout);
    lemma_with_headers_len(empty, args, layout);
    lemma_with_contents_frame(start, layout, 0, 0, layout.sections.len() as int, 0, i);
    assert(pe_writer::with_contents(start, layout, 0, 0)->Ok_0 == start);
    lemma_headers_frame(empty, args, layout, i);
}

/// Where the relocations stay inside of their sections, the field of a relocation holds in the
/// image what the relocation writes, unless a later relocation of its section changes it again.
pub proof fn relocated_fields_stay(args: PeArgs, layout: LayoutView, k: int, c: int, m: int)
    requires
        pe_writer::image(args, layout) is Ok,
        parts_are_apart(layout),
        relocations_stay_inside(layout),
        forall|l: int|
            0 <= l < layout.sections.len() ==> (#[trigger] layout.sections[l]).name.len() == 8,
        has_contents(layout, k, c),
        0 <= m < part_source(layout, k, c).relocations.len(),
        forall|l: int|
            m < l < part_source(layout, k, c).relocations.len() ==> fields_are_apart(
                part_source(layout, k, c).relocations[m],
                #[trigger] part_source(layout, k, c).relocations[l],
            ),
    ensures
        ({
            let relocation = part_source(layout, k, c).relocations[m];
            let contribution = layout.sections[k].contributions[c];
            let at = pe_reloc::site(layout.sections[k], contribution, relocation);
            let data = pe_reloc::patch(layout, layout.sections[k], contribution, relocation);
            &&& data is Ok
            &&& pe_writer::image(args, layout)->Ok_0.subrange(
                at,
                at + field_width(relocation.typ),
            ) == data->Ok_0
        }),
{
    let output = layout.sections[k];
    let contribution = output.contributions[c];
    let relocations = part_source(layout, k, c).relocations;
    let relocation = relocations[m];
    let at = pe_reloc::site(output, contribution, relocation);
    let width = field_width(relocation.typ);
    let before = image_before(args, layout, k, c);
    let image = pe_writer::image(args, layout)->Ok_0;
    let empty = pe_writer::zeros(layout.file_size as nat);
    let start = pe_writer::with_headers(empty, args, layout);
    let n = layout.sections.len() as int;
    lemma_with_headers_len(empty, args, layout);
    lemma_with_contents_len(start, layout, n, 0);
    lemma_with_contents_ok(start, layout, k, c + 1, n, 0);
    lemma_with_contents_ok(start, layout, k, c, n, 0);
    lemma_with_contents_len(start, layout, k, c);
    let copied = bytes::put(
        before,
        pe_writer::contribution_at(output, contribution),
        pe_writer::contribution_data(layout, contribution),
    );
    lemma_relocated_field(
        copied,
        layout,
        output,
        contribution,
        relocations,
        relocations.len() as int,
        m,
    );
    let data = pe_reloc::patch(layout, output, contribution, relocation)->Ok_0;
    lemma_patch_len(layout, output, contribution, relocation);
    let _ = part_source(layout, k, c).relocations[m];
    assert forall|i: int| 0 <= i < width implies image[at + i] == data[i] by {
        lemma_others_spare(layout, k, c, at + i);
        lemma_part_stays(args, layout, k, c, at + i);
    }
    assert(image.subrange(at, at + width) =~= data);
}

/// There is an image only where every relocation of every section with contents has bytes to
/// write.
pub proof fn relocations_succeed(args: PeArgs, layout: LayoutView, k: int, c: int, m: int)
    requires
        pe_writer::image(args, layout) is Ok,
        has_contents(layout, k, c),
        0 <= m < part_source(layout, k, c).relocations.len(),
    ensures
        pe_reloc::patch(
            layout,
            layout.sections[k],
            layout.sections[k].contributions[c],
            part_source(layout, k, c).relocations[m],
        ) is Ok,
{
    let output = layout.sections[k];
    let contribution = output.contributions[c];
    let relocations = part_source(layout, k, c).relocations;
    let empty = pe_writer::zeros(layout.file_size as nat);
    let start = pe_writer::with_headers(empty, args, layout);
    lemma_with_contents_ok(start, layout, k, c + 1, layout.sections.len() as int, 0);
    let before = pe_writer::with_contents(start, layout, k, c)->Ok_0;
    let copied = bytes::put(
        before,
        pe_writer::contribution_at(output, contribution),
        pe_writer::contribution_data(layout, contribution),
    );
    lemma_relocated_ok(
        copied,
        layout,
        output,
        contribution,
        relocations,
        relocations.len() as int,
        m,
    );
}

/// Where all relocations are applied, each has bytes to write.
proof fn lemma_relocated_ok(
    buf: Seq<u8>,
    layout: LayoutView,
    output: OutputView,
    contribution: SectionContribution,
    relocations: Seq<InputRelocation>,
    n: int,
    m: int,
)
    requires
        0 <= m < n <= relocations.len(),
        pe_reloc::relocated(buf, layout, output, contribution, relocations, n) is Ok,
    ensures
        pe_reloc::patch(layout, output, contribution, relocations[m]) is Ok,
    decreases n,
{
    if m < n - 1 {
        lemma_relocated_ok(buf, layout, output, contribution, relocations, n - 1, m);
    }
}

/// Whether two relocations of one section change different bytes.
pub open spec fn fields_are_apart(a: InputRelocation, b: InputRelocation) -> bool {
    a.offset + field_width(a.typ) <= b.offset || b.offset + field_width(b.typ) <= a.offset
}

/// A field stays while the relocations behind it change other bytes.
proof fn lemma_relocated_field(
    buf: Seq<u8>,
    layout: LayoutView,
    output: OutputView,
    contribution: SectionContribution,
    relocations: Seq<InputRelocation>,
    n: int,
    m: int,
)
    requires
        0 <= m < n <= relocations.len(),
        pe_reloc::relocated(buf, layout, output, contribution, relocations, n) is Ok,
        forall|l: int|
            m < l < n ==> fields_are_apart(relocations[m], #[trigger] relocations[l]),
    ensures
        ({
            let after = pe_reloc::relocated(
                buf,
                layout,
                output,
                contribution,
                relocations,
                n,
            )->Ok_0;
            let at = pe_reloc::site(output, contribution, relocations[m]);
            let data = pe_reloc::patch(layout, output, contribution, relocations[m]);
            &&& data is Ok
            &&& after.len() == buf.len()
            &&& field_width(relocations[m].typ) > 0 ==> at + field_width(relocations[m].typ)
                <= buf.len()
            &&& forall|i: int|
                0 <= i < field_width(relocations[m].typ) ==> after[at + i]
                    == #[trigger] data->Ok_0[i]
        }),
    decreases n,
{
    let before = pe_reloc::relocated(
        buf,
        layout,
        output,
        contribution,
        relocations,
        n - 1,
    )->Ok_0;
    lemma_relocated_len(buf, layout, output, contribution, relocations, n - 1);
    relocation_changes_only_its_field(before, layout, output, contribution, relocations[n - 1]);
    if m < n - 1 {
        lemma_relocated_field(buf, layout, output, contribution, relocations, n - 1, m);
        let _ = relocations[n - 1];
    }
}

} // verus!
