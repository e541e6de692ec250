//! What every relocation does: when it succeeds, what its field holds then, and how it fails.
use crate::bytes;
use crate::error::{LinkError, RelocationName};
use crate::image_laws;
use crate::input::{InputRelocation, InputRelocationTarget};
use crate::pe_layout::LayoutView;
use crate::pe_reloc;
use crate::pe_section::{OutputView, SectionContribution};
use crate::pe_symbols;
use vstd::prelude::*;

verus! {

// ---- numbers in the file ----

/// A field holds its lowest byte first.
pub proof fn fields_begin_with_the_lowest_byte(buf: Seq<u8>, at: int)
    requires
        0 <= at,
    ensures
        at + 1 <= buf.len() ==> bytes::read(buf, at, 1) == buf[at],
        at + 2 <= buf.len() ==> bytes::read(buf, at, 2) == buf[at] + 0x100 * buf[at + 1],
        at + 4 <= buf.len() ==> bytes::read(buf, at, 4) == buf[at] + 0x100 * buf[at + 1] + 0x1_0000
            * buf[at + 2] + 0x100_0000 * buf[at + 3],
        at + 8 <= buf.len() ==> bytes::read(buf, at, 8) == bytes::read(buf, at, 4) + 0x1_0000_0000
            * bytes::read(buf, at + 4, 4),
{
    if at + 8 <= buf.len() {
        lemma_read_step(buf, at, 8);
        lemma_read_step(buf, at + 1, 7);
        lemma_read_step(buf, at + 2, 6);
        lemma_read_step(buf, at + 3, 5);
        lemma_read_four(buf, at + 4);
    }
    if at + 4 <= buf.len() {
        lemma_read_four(buf, at);
    }
    if at + 2 <= buf.len() {
        lemma_read_step(buf, at, 2);
        lemma_read_step(buf, at + 1, 1);
        lemma_read_none(buf, at + 2);
    }
    if at + 1 <= buf.len() {
        lemma_read_step(buf, at, 1);
        lemma_read_none(buf, at + 1);
    }
}

/// The lowest byte of a field, and the field behind it.
proof fn lemma_read_step(buf: Seq<u8>, at: int, width: int)
    requires
        0 <= at,
        1 <= width,
        at + width <= buf.len(),
    ensures
        bytes::read(buf, at, width) == buf[at] + 0x100 * bytes::read(buf, at + 1, width - 1),
{
    assert(buf.subrange(at, at + width).drop_first() =~= buf.subrange(at + 1, at + width));
}

/// A field without bytes is zero.
proof fn lemma_read_none(buf: Seq<u8>, at: int)
    requires
        0 <= at <= buf.len(),
    ensures
        bytes::read(buf, at, 0) == 0,
{
}

/// A field of four bytes.
proof fn lemma_read_four(buf: Seq<u8>, at: int)
    requires
        0 <= at,
        at + 4 <= buf.len(),
    ensures
        bytes::read(buf, at, 4) == buf[at] + 0x100 * buf[at + 1] + 0x1_0000 * buf[at + 2]
            + 0x100_0000 * buf[at + 3],
{
    lemma_read_step(buf, at, 4);
    lemma_read_step(buf, at + 1, 3);
    lemma_read_step(buf, at + 2, 2);
    lemma_read_step(buf, at + 3, 1);
    lemma_read_none(buf, at + 4);
}

// ---- one relocation ----

/// Whether storing a number in a field came to this: where the field lies in the file, it holds the
/// number and all other bytes are as before; where it does not, nothing is written.
pub open spec fn is_stored(
    buf: Seq<u8>,
    at: int,
    width: int,
    value: int,
    r: Result<Seq<u8>, LinkError>,
) -> bool {
    if at + width <= buf.len() {
        &&& r matches Ok(after)
        &&& after.len() == buf.len()
        &&& bytes::read(after, at, width) == value
        &&& forall|i: int|
            0 <= i < buf.len() && !(at <= i < at + width) ==> #[trigger] after[i] == buf[i]
    } else {
        r == Err::<Seq<u8>, LinkError>(LinkError::WriteOutOfBounds { width: width as u8 })
    }
}

/// Written numbers are stored.
proof fn lemma_stored(buf: Seq<u8>, at: int, width: nat, value: int)
    requires
        0 <= at,
        width == 2 || width == 4 || width == 8,
        0 <= value < vstd::arithmetic::power::pow(256, width),
    ensures
        is_stored(
            buf,
            at,
            width as int,
            value,
            pe_reloc::written(buf, at, bytes::le_bytes(value, width)),
        ),
        bytes::le_bytes(value, width).len() == width,
{
    bytes::le_bytes_len(value, width);
    if at + width <= buf.len() {
        bytes::put_then_read(buf, at, value, width);
    }
}

/// A relocation that refers to an address stores what its type asks for, if that fits in its field
/// and the field lies in the file, and fails otherwise; it fails for no other reason.
///
/// The full address has to fit in 32 bits for `ADDR32` only. `ADDR32NB` stores the distance from
/// the image base, `SECREL` that from the start of the output section, and the relative types that
/// from the end of the instruction, which lies four to nine bytes behind the start of the field.
pub proof fn relocations_store_what_their_type_asks_for(
    buf: Seq<u8>,
    layout: LayoutView,
    output: OutputView,
    contribution: SectionContribution,
    relocation: InputRelocation,
    target: u64,
)
    requires
        output.file_offset + contribution.output_offset + relocation.offset <= usize::MAX,
        layout.image_base + output.virtual_address + contribution.output_offset + relocation.offset
            <= u64::MAX,
        pe_symbols::target_address(layout, contribution.object_index as int, relocation.target)
            == Ok::<u64, LinkError>(target),
    ensures
        ({
            let r = pe_reloc::with_relocation(buf, layout, output, contribution, relocation);
            let at = output.file_offset + contribution.output_offset + relocation.offset;
            let address = layout.image_base + output.virtual_address + contribution.output_offset
                + relocation.offset;
            let above_base = target - layout.image_base;
            let above_section = target - layout.image_base - output.virtual_address;
            let ahead = target - address - relocation.typ;
            &&& relocation.typ == 0 ==> r == Ok::<Seq<u8>, LinkError>(buf)
            &&& relocation.typ == 1 ==> is_stored(buf, at, 8, target as int, r)
            &&& relocation.typ == 2 ==> if target <= 0xFFFF_FFFF {
                is_stored(buf, at, 4, target as int, r)
            } else {
                r == Err::<Seq<u8>, LinkError>(
                    LinkError::ValueOverflow { relocation: RelocationName::Addr32, value: target },
                )
            }
            &&& relocation.typ == 3 ==> if above_base < 0 {
                r == Err::<Seq<u8>, LinkError>(LinkError::TargetBelowImageBase)
            } else if above_base <= 0xFFFF_FFFF {
                is_stored(buf, at, 4, above_base, r)
            } else {
                r == Err::<Seq<u8>, LinkError>(
                    LinkError::ValueOverflow {
                        relocation: RelocationName::Addr32Nb,
                        value: above_base as u64,
                    },
                )
            }
            &&& 4 <= relocation.typ <= 9 ==> if -0x8000_0000 <= ahead < 0 {
                is_stored(buf, at, 4, ahead + 0x1_0000_0000, r)
            } else if 0 <= ahead <= 0x7FFF_FFFF {
                is_stored(buf, at, 4, ahead, r)
            } else {
                r == Err::<Seq<u8>, LinkError>(LinkError::Rel32OutOfRange)
            }
            &&& relocation.typ == 11 ==> if above_section < 0 {
                r == Err::<Seq<u8>, LinkError>(LinkError::TargetBelowSection)
            } else if above_section <= 0xFFFF_FFFF {
                is_stored(buf, at, 4, above_section, r)
            } else {
                r == Err::<Seq<u8>, LinkError>(
                    LinkError::ValueOverflow {
                        relocation: RelocationName::SecRel,
                        value: above_section as u64,
                    },
                )
            }
            &&& relocation.typ >= 12 ==> r == Err::<Seq<u8>, LinkError>(
                LinkError::UnsupportedRelocation {
                    typ: relocation.typ,
                    object: contribution.object_index,
                    section: contribution.section_index,
                },
            )
        }),
{
    let at = output.file_offset + contribution.output_offset + relocation.offset;
    let address = layout.image_base + output.virtual_address + contribution.output_offset
        + relocation.offset;
    let above_base = target - layout.image_base;
    let above_section = target - layout.image_base - output.virtual_address;
    let ahead = target - address - relocation.typ;
    image_laws::lemma_pow256();
    lemma_stored(buf, at, 8, target as int);
    if target <= 0xFFFF_FFFF {
        lemma_stored(buf, at, 4, target as int);
    }
    if 0 <= above_base <= 0xFFFF_FFFF {
        lemma_stored(buf, at, 4, above_base);
    }
    if 0 <= above_section <= 0xFFFF_FFFF {
        lemma_stored(buf, at, 4, above_section);
    }
    if -0x8000_0000 <= ahead < 0 {
        lemma_stored(buf, at, 4, ahead + 0x1_0000_0000);
    }
    if 0 <= ahead <= 0x7FFF_FFFF {
        lemma_stored(buf, at, 4, ahead);
    }
}

/// A `SECTION` relocation stores the number of the output section that the section it names, or
/// that of the symbol it names, is part of; the first output section has the number one. Where an
/// object has two sections with one index, the first counts. It stores zero where it names nothing.
pub proof fn section_relocations_store_a_number(
    buf: Seq<u8>,
    layout: LayoutView,
    output: OutputView,
    contribution: SectionContribution,
    relocation: InputRelocation,
    target: u64,
    id: usize,
    j: int,
    k: usize,
)
    requires
        relocation.typ == 10,
        output.file_offset + contribution.output_offset + relocation.offset <= usize::MAX,
        layout.image_base + output.virtual_address + contribution.output_offset + relocation.offset
            <= u64::MAX,
        contribution.object_index < layout.objects.len(),
        layout.objects[contribution.object_index as int].sections.len() <= usize::MAX,
        pe_symbols::target_address(layout, contribution.object_index as int, relocation.target)
            == Ok::<u64, LinkError>(target),
        ({
            let object = layout.objects[contribution.object_index as int];
            &&& relocation.target == InputRelocationTarget::Section(id) || exists|s: usize|
                {
                    &&& relocation.target == InputRelocationTarget::Symbol(s)
                    &&& s < object.symbols.len()
                    &&& #[trigger] object.symbols[s as int].section
                        == crate::input::SymbolSection::Section(id)
                }
            &&& 0 <= j < object.sections.len()
            &&& object.sections[j].index == id
            &&& forall|l: int| 0 <= l < j ==> (#[trigger] object.sections[l]).index != id
            &&& object.sections[j].output_section == Some(k)
        }),
    ensures
        ({
            let r = pe_reloc::with_relocation(buf, layout, output, contribution, relocation);
            let at = output.file_offset + contribution.output_offset + relocation.offset;
            &&& k < 0xFFFF ==> is_stored(buf, at, 2, k + 1, r)
            &&& 0xFFFF <= k < usize::MAX ==> r == Err::<Seq<u8>, LinkError>(
                LinkError::TooManySections,
            )
        }),
{
    let object = layout.objects[contribution.object_index as int];
    let at = output.file_offset + contribution.output_offset + relocation.offset;
    lemma_first_section(layout, contribution.object_index as int, id, j, 0);
    image_laws::lemma_pow256();
    if k < 0xFFFF {
        lemma_stored(buf, at, 2, k + 1);
    }
}

/// A `SECTION` relocation that names nothing stores zero; one that names a symbol that lies in no
/// section fails.
pub proof fn section_relocations_need_a_section(
    buf: Seq<u8>,
    layout: LayoutView,
    output: OutputView,
    contribution: SectionContribution,
    relocation: InputRelocation,
    target: u64,
)
    requires
        relocation.typ == 10,
        output.file_offset + contribution.output_offset + relocation.offset <= usize::MAX,
        layout.image_base + output.virtual_address + contribution.output_offset + relocation.offset
            <= u64::MAX,
        contribution.object_index < layout.objects.len(),
        pe_symbols::target_address(layout, contribution.object_index as int, relocation.target)
            == Ok::<u64, LinkError>(target),
    ensures
        ({
            let r = pe_reloc::with_relocation(buf, layout, output, contribution, relocation);
            let at = output.file_offset + contribution.output_offset + relocation.offset;
            let symbols = layout.objects[contribution.object_index as int].symbols;
            &&& relocation.target == InputRelocationTarget::Absolute ==> is_stored(
                buf,
                at,
                2,
                0,
                r,
            )
            &&& relocation.target matches InputRelocationTarget::Symbol(s) ==> {
                &&& s >= symbols.len() ==> r == Err::<Seq<u8>, LinkError>(
                    LinkError::SectionSymbolMissing,
                )
                &&& s < symbols.len() && !(symbols[s as int].section is Section) ==> r == Err::<
                    Seq<u8>,
                    LinkError,
                >(LinkError::SymbolWithoutSection)
            }
        }),
{
    let at = output.file_offset + contribution.output_offset + relocation.offset;
    image_laws::lemma_pow256();
    lemma_stored(buf, at, 2, 0);
}

/// A `SECTION` relocation whose symbol lies in a section that the object does not have, or that is
/// no part of the output, fails.
pub proof fn section_relocations_need_the_section_in_the_output(
    buf: Seq<u8>,
    layout: LayoutView,
    output: OutputView,
    contribution: SectionContribution,
    relocation: InputRelocation,
    target: u64,
    s: usize,
    id: usize,
)
    requires
        relocation.typ == 10,
        output.file_offset + contribution.output_offset + relocation.offset <= usize::MAX,
        layout.image_base + output.virtual_address + contribution.output_offset + relocation.offset
            <= u64::MAX,
        contribution.object_index < layout.objects.len(),
        layout.objects[contribution.object_index as int].sections.len() <= usize::MAX,
        relocation.target == InputRelocationTarget::Symbol(s),
        s < layout.objects[contribution.object_index as int].symbols.len(),
        layout.objects[contribution.object_index as int].symbols[s as int].section
            == crate::input::SymbolSection::Section(id),
        pe_symbols::target_address(layout, contribution.object_index as int, relocation.target)
            == Ok::<u64, LinkError>(target),
    ensures
        ({
            let r = pe_reloc::with_relocation(buf, layout, output, contribution, relocation);
            let i = contribution.object_index as int;
            let sections = layout.objects[i].sections;
            &&& (forall|l: int| 0 <= l < sections.len() ==> (#[trigger] sections[l]).index != id)
                ==> r == Err::<Seq<u8>, LinkError>(
                LinkError::MissingRelocationSection {
                    object: contribution.object_index,
                    section_id: id,
                },
            )
            &&& forall|j: int|
                {
                    &&& 0 <= j < sections.len()
                    &&& (#[trigger] sections[j]).index == id
                    &&& is_first(layout, i, j)
                    &&& sections[j].output_section is None
                } ==> r == Err::<Seq<u8>, LinkError>(LinkError::DiscardedSection)
        }),
{
    let i = contribution.object_index as int;
    let sections = layout.objects[i].sections;
    let r = pe_reloc::with_relocation(buf, layout, output, contribution, relocation);
    if forall|l: int| 0 <= l < sections.len() ==> (#[trigger] sections[l]).index != id {
        lemma_no_section(layout, i, id, 0);
    }
    assert forall|j: int|
        {
            &&& 0 <= j < sections.len()
            &&& (#[trigger] sections[j]).index == id
            &&& is_first(layout, i, j)
            &&& sections[j].output_section is None
        } implies r == Err::<Seq<u8>, LinkError>(LinkError::DiscardedSection) by {
        lemma_first_section(layout, i, id, j, 0);
    }
}

/// The first section with an index.
proof fn lemma_first_section(layout: LayoutView, i: int, id: usize, j: int, n: int)
    requires
        0 <= i < layout.objects.len(),
        0 <= n <= j < layout.objects[i].sections.len(),
        layout.objects[i].sections.len() <= usize::MAX,
        layout.objects[i].sections[j].index == id,
        forall|l: int| 0 <= l < j ==> (#[trigger] layout.objects[i].sections[l]).index != id,
    ensures
        pe_symbols::first_section(layout.objects[i].sections, n, id) == Some(j as usize),
    decreases j - n,
{
    if n < j {
        assert(layout.objects[i].sections[n].index != id);
        lemma_first_section(layout, i, id, j, n + 1);
    }
}

/// A relocation whose place cannot be computed fails, and so does one that refers to nothing that
/// has an address: its error is that of the target.
pub proof fn relocations_need_a_place_and_a_target(
    buf: Seq<u8>,
    layout: LayoutView,
    output: OutputView,
    contribution: SectionContribution,
    relocation: InputRelocation,
)
    ensures
        ({
            let r = pe_reloc::with_relocation(buf, layout, output, contribution, relocation);
            let target = pe_symbols::target_address(
                layout,
                contribution.object_index as int,
                relocation.target,
            );
            if output.file_offset + contribution.output_offset + relocation.offset > usize::MAX
                || layout.image_base + output.virtual_address + contribution.output_offset
                + relocation.offset > u64::MAX {
                r == Err::<Seq<u8>, LinkError>(LinkError::ArithmeticOverflow)
            } else {
                target matches Err(e) ==> r == Err::<Seq<u8>, LinkError>(e)
            }
        }),
{
}

// ---- what relocations refer to ----

/// A relocation that refers to a section stands for the place of that section in memory: the image
/// base, plus the address of the output section, plus the offset in there. Where an object has two
/// sections with one index, the first counts.
pub proof fn sections_are_referred_to_by_address(
    layout: LayoutView,
    i: int,
    id: usize,
    j: int,
    k: usize,
)
    requires
        0 <= i < layout.objects.len(),
        layout.objects[i].sections.len() <= usize::MAX,
        0 <= j < layout.objects[i].sections.len(),
        layout.objects[i].sections[j].index == id,
        forall|l: int| 0 <= l < j ==> (#[trigger] layout.objects[i].sections[l]).index != id,
        layout.objects[i].sections[j].output_section == Some(k),
    ensures
        ({
            let address = layout.image_base + layout.sections[k as int].virtual_address
                + layout.objects[i].sections[j].output_offset;
            pe_symbols::target_address(layout, i, InputRelocationTarget::Section(id)) == (
            if address <= u64::MAX {
                Ok::<u64, LinkError>(address as u64)
            } else {
                Err(LinkError::ArithmeticOverflow)
            })
        }),
{
    lemma_first_section(layout, i, id, j, 0);
}

/// A relocation cannot refer to a section that its object does not have, or that is no part of the
/// output. One that refers to nothing stands for zero, and one that refers to a symbol for the
/// address of that symbol.
pub proof fn other_targets(layout: LayoutView, i: int, id: usize, s: usize)
    requires
        0 <= i < layout.objects.len(),
        layout.objects[i].sections.len() <= usize::MAX,
    ensures
        pe_symbols::target_address(layout, i, InputRelocationTarget::Absolute) == Ok::<
            u64,
            LinkError,
        >(0),
        pe_symbols::target_address(layout, i, InputRelocationTarget::Symbol(s))
            == pe_symbols::address_of(layout, i, s as int),
        (forall|l: int|
            0 <= l < layout.objects[i].sections.len() ==> (
            #[trigger] layout.objects[i].sections[l]).index != id) ==> pe_symbols::target_address(
            layout,
            i,
            InputRelocationTarget::Section(id),
        ) == Err::<u64, LinkError>(
            LinkError::MissingRelocationSection { object: i as usize, section_id: id },
        ),
        forall|j: int|
            {
                &&& 0 <= j < layout.objects[i].sections.len()
                &&& (#[trigger] layout.objects[i].sections[j]).index == id
                &&& is_first(layout, i, j)
                &&& layout.objects[i].sections[j].output_section is None
            } ==> pe_symbols::target_address(layout, i, InputRelocationTarget::Section(id))
                == Err::<u64, LinkError>(
                LinkError::SectionNotInOutput { object: i as usize, section: j as usize },
            ),
{
    if forall|l: int|
        0 <= l < layout.objects[i].sections.len() ==> (
        #[trigger] layout.objects[i].sections[l]).index != id {
        lemma_no_section(layout, i, id, 0);
    }
    assert forall|j: int|
        {
            &&& 0 <= j < layout.objects[i].sections.len()
            &&& (#[trigger] layout.objects[i].sections[j]).index == id
            &&& is_first(layout, i, j)
            &&& layout.objects[i].sections[j].output_section is None
        } implies pe_symbols::target_address(layout, i, InputRelocationTarget::Section(id))
        == Err::<u64, LinkError>(
        LinkError::SectionNotInOutput { object: i as usize, section: j as usize },
    ) by {
        lemma_first_section(layout, i, id, j, 0);
    }
}

/// Whether no section of the object in front of the `j`-th has the same index.
pub open spec fn is_first(layout: LayoutView, i: int, j: int) -> bool {
    forall|l: int|
        0 <= l < j ==> (#[trigger] layout.objects[i].sections[l]).index
            != layout.objects[i].sections[j].index
}

/// No section with an index.
proof fn lemma_no_section(layout: LayoutView, i: int, id: usize, n: int)
    requires
        0 <= i < layout.objects.len(),
        0 <= n <= layout.objects[i].sections.len(),
        forall|l: int|
            0 <= l < layout.objects[i].sections.len() ==> (
            #[trigger] layout.objects[i].sections[l]).index != id,
    ensures
        pe_symbols::first_section(layout.objects[i].sections, n, id) is None,
    decreases layout.objects[i].sections.len() - n,
{
    if n < layout.objects[i].sections.len() {
        assert(layout.objects[i].sections[n].index != id);
        lemma_no_section(layout, i, id, n + 1);
    }
}

// ---- all relocations of a section ----

/// Relocations are applied one after the other: each one works on what those in front of it made of
/// the file, and the first that fails ends it all.
pub proof fn relocations_are_applied_in_order(
    buf: Seq<u8>,
    layout: LayoutView,
    output: OutputView,
    contribution: SectionContribution,
    relocations: Seq<InputRelocation>,
    more: InputRelocation,
)
    ensures
        pe_reloc::relocated(buf, layout, output, contribution, Seq::empty(), 0) == Ok::<
            Seq<u8>,
            LinkError,
        >(buf),
        pe_reloc::relocated(
            buf,
            layout,
            output,
            contribution,
            relocations.push(more),
            relocations.len() as int + 1,
        ) == (match pe_reloc::relocated(
            buf,
            layout,
            output,
            contribution,
            relocations,
            relocations.len() as int,
        ) {
            Err(e) => Err(e),
            Ok(before) => pe_reloc::with_relocation(before, layout, output, contribution, more),
        }),
{
    let all = relocations.push(more);
    lemma_same_relocations(
        buf,
        layout,
        output,
        contribution,
        relocations,
        all,
        relocations.len() as int,
    );
}

/// Only the first relocations count.
proof fn lemma_same_relocations(
    buf: Seq<u8>,
    layout: LayoutView,
    output: OutputView,
    contribution: SectionContribution,
    a: Seq<InputRelocation>,
    b: Seq<InputRelocation>,
    n: int,
)
    requires
        0 <= n <= a.len(),
        n <= b.len(),
        forall|m: int| 0 <= m < n ==> #[trigger] a[m] == b[m],
    ensures
        pe_reloc::relocated(buf, layout, output, contribution, a, n) == pe_reloc::relocated(
            buf,
            layout,
            output,
            contribution,
            b,
            n,
        ),
    decreases n,
{
    if n > 0 {
        lemma_same_relocations(buf, layout, output, contribution, a, b, n - 1);
        assert(a[n - 1] == b[n - 1]);
    }
}

} // verus!
