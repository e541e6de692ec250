//! Relocations of x86-64 COFF objects.
use crate::bytes;
use crate::bytes::write_le;
use crate::error::{LinkError, RelocationName};
use crate::input::{InputRelocation, InputRelocationTarget, InputSection};
use crate::pe;
use crate::pe_layout::{LayoutView, PeLayout};
use crate::pe_section::{OutputSection, OutputView, SectionContribution};
use crate::pe_symbols;
use crate::pe_symbols::{relocation_target_address, section_symbol_index};
use vstd::prelude::*;

verus! {

/// The bits of a signed 32-bit number, as an unsigned one.
pub open spec fn two_complement(value: int) -> int {
    if value < 0 {
        value + 0x1_0000_0000
    } else {
        value
    }
}

/// Whether a number fits in 32 signed bits.
pub open spec fn is_signed_32(value: int) -> bool {
    i32::MIN <= value <= i32::MAX
}

/// The buffer with the bytes written at `offset`, if they fit in.
pub open spec fn written(buf: Seq<u8>, offset: int, data: Seq<u8>) -> Result<Seq<u8>, LinkError> {
    if offset + data.len() > buf.len() {
        Err(LinkError::WriteOutOfBounds { width: data.len() as u8 })
    } else {
        Ok(bytes::put(buf, offset, data))
    }
}

/// Whether a write did to the buffer what `written` says; a failed write leaves it alone.
pub open spec fn is_write(
    before: Seq<u8>,
    after: Seq<u8>,
    offset: int,
    data: Seq<u8>,
    r: Result<(), LinkError>,
) -> bool {
    match r {
        Ok(()) => written(before, offset, data) == Ok::<Seq<u8>, LinkError>(after),
        Err(e) => after == before && written(before, offset, data) == Err::<
            Seq<u8>,
            LinkError,
        >(e),
    }
}

/// Writes the low bytes of a number, if they fit in the buffer.
fn write_field(buf: &mut [u8], offset: usize, value: u64, width: usize) -> (r: Result<
    (),
    LinkError,
>)
    requires
        width <= 8,
    ensures
        is_write(
            old(buf)@,
            final(buf)@,
            offset as int,
            bytes::le_bytes(value as int, width as nat),
            r,
        ),
{
    proof {
        bytes::le_bytes_len(value as int, width as nat);
    }
    if offset > buf.len() || buf.len() - offset < width {
        return Err(LinkError::WriteOutOfBounds { width: width as u8 });
    }
    write_le(buf, offset, value, width);
    Ok(())
}

/// Writes a 16-bit number.
pub fn write_u16(buf: &mut [u8], offset: usize, value: u16) -> (r: Result<(), LinkError>)
    ensures
        is_write(old(buf)@, final(buf)@, offset as int, bytes::le_bytes(value as int, 2), r),
{
    write_field(buf, offset, value as u64, 2)
}

/// Writes a 32-bit number.
pub fn write_u32(buf: &mut [u8], offset: usize, value: u32) -> (r: Result<(), LinkError>)
    ensures
        is_write(old(buf)@, final(buf)@, offset as int, bytes::le_bytes(value as int, 4), r),
{
    write_field(buf, offset, value as u64, 4)
}

/// Writes a signed 32-bit number.
pub fn write_i32(buf: &mut [u8], offset: usize, value: i32) -> (r: Result<(), LinkError>)
    ensures
        is_write(
            old(buf)@,
            final(buf)@,
            offset as int,
            bytes::le_bytes(two_complement(value as int), 4),
            r,
        ),
{
    let bits: u64 = if value < 0 {
        (value as i64 + 0x1_0000_0000) as u64
    } else {
        value as u64
    };
    write_field(buf, offset, bits, 4)
}

/// Writes a 64-bit number.
pub fn write_u64(buf: &mut [u8], offset: usize, value: u64) -> (r: Result<(), LinkError>)
    ensures
        is_write(old(buf)@, final(buf)@, offset as int, bytes::le_bytes(value as int, 8), r),
{
    write_field(buf, offset, value, 8)
}

/// The distance from the end of an instruction to the target.
pub open spec fn distance(target_addr: u64, reloc_va: u64, instruction_adjust: int) -> int {
    target_addr - reloc_va - instruction_adjust
}

/// Writes the distance from the end of an instruction to the target.
pub fn write_rel32(
    buf: &mut [u8],
    file_offset: usize,
    target_addr: u64,
    reloc_va: u64,
    instruction_adjust: i128,
) -> (r: Result<(), LinkError>)
    requires
        i128::MIN <= distance(target_addr, reloc_va, instruction_adjust as int) <= i128::MAX,
    ensures
        ({
            let value = distance(target_addr, reloc_va, instruction_adjust as int);
            if !is_signed_32(value) {
                r == Err::<(), LinkError>(LinkError::Rel32OutOfRange) && final(buf)@ == old(buf)@
            } else {
                is_write(
                    old(buf)@,
                    final(buf)@,
                    file_offset as int,
                    bytes::le_bytes(two_complement(value), 4),
                    r,
                )
            }
        }),
{
    let value: i128 = target_addr as i128 - reloc_va as i128 - instruction_adjust;
    if value < i32::MIN as i128 || value > i32::MAX as i128 {
        return Err(LinkError::Rel32OutOfRange);
    }
    write_i32(buf, file_offset, value as i32)
}

/// The value, if it fits in 32 unsigned bits.
pub open spec fn fitting(value: int, relocation: RelocationName) -> Result<u32, LinkError> {
    if value > u32::MAX {
        Err(LinkError::ValueOverflow { relocation, value: value as u64 })
    } else {
        Ok(value as u32)
    }
}

/// Returns the value, if it fits in 32 unsigned bits.
pub fn checked_u32(value: u64, relocation_name: RelocationName) -> (r: Result<u32, LinkError>)
    ensures
        r == fitting(value as int, relocation_name),
{
    if value > u32::MAX as u64 {
        Err(LinkError::ValueOverflow { relocation: relocation_name, value })
    } else {
        Ok(value as u32)
    }
}

/// The bytes of a 32-bit value.
pub open spec fn value_bytes(value: Result<u32, LinkError>) -> Result<Seq<u8>, LinkError> {
    match value {
        Err(e) => Err(e),
        Ok(v) => Ok(bytes::le_bytes(v as int, 4)),
    }
}

/// The number of the output section that a `SECTION` relocation in object `i` asks for.
pub open spec fn section_number(
    layout: LayoutView,
    i: int,
    target: InputRelocationTarget,
) -> Result<u16, LinkError> {
    match target {
        InputRelocationTarget::Section(id) => pe_symbols::output_number(layout, i, id),
        InputRelocationTarget::Symbol(s) => if s >= layout.objects[i].symbols.len() {
            Err(LinkError::SectionSymbolMissing)
        } else {
            match layout.objects[i].symbols[s as int].section.section_id() {
                None => Err(LinkError::SymbolWithoutSection),
                Some(id) => pe_symbols::output_number(layout, i, id),
            }
        },
        InputRelocationTarget::Absolute => Ok(0),
    }
}

/// The bytes that a relocation of the contribution writes at the address `reloc_va` of the output
/// section, if it refers to the address `target_addr`.
pub open spec fn patch_for(
    layout: LayoutView,
    output: OutputView,
    contribution: SectionContribution,
    relocation: InputRelocation,
    reloc_va: u64,
    target_addr: u64,
) -> Result<Seq<u8>, LinkError> {
    if relocation.typ == pe::IMAGE_REL_AMD64_ABSOLUTE {
        Ok(Seq::empty())
    } else if relocation.typ == pe::IMAGE_REL_AMD64_ADDR64 {
        Ok(bytes::le_bytes(target_addr as int, 8))
    } else if relocation.typ == pe::IMAGE_REL_AMD64_ADDR32 {
        value_bytes(fitting(target_addr as int, RelocationName::Addr32))
    } else if relocation.typ == pe::IMAGE_REL_AMD64_ADDR32NB {
        if target_addr < layout.image_base {
            Err(LinkError::TargetBelowImageBase)
        } else {
            value_bytes(fitting(target_addr - layout.image_base, RelocationName::Addr32Nb))
        }
    } else if pe::IMAGE_REL_AMD64_REL32 <= relocation.typ <= pe::IMAGE_REL_AMD64_REL32_5 {
        let value = distance(target_addr, reloc_va, relocation.typ as int);
        if is_signed_32(value) {
            Ok(bytes::le_bytes(two_complement(value), 4))
        } else {
            Err(LinkError::Rel32OutOfRange)
        }
    } else if relocation.typ == pe::IMAGE_REL_AMD64_SECTION {
        match section_number(layout, contribution.object_index as int, relocation.target) {
            Err(e) => Err(e),
            Ok(number) => Ok(bytes::le_bytes(number as int, 2)),
        }
    } else if relocation.typ == pe::IMAGE_REL_AMD64_SECREL {
        let section_base = layout.image_base + output.virtual_address;
        if target_addr < section_base {
            Err(LinkError::TargetBelowSection)
        } else {
            value_bytes(fitting(target_addr - section_base, RelocationName::SecRel))
        }
    } else {
        Err(
            LinkError::UnsupportedRelocation {
                typ: relocation.typ,
                object: contribution.object_index,
                section: contribution.section_index,
            },
        )
    }
}

/// The place in the file of the field that a relocation changes.
pub open spec fn site(
    output: OutputView,
    contribution: SectionContribution,
    relocation: InputRelocation,
) -> int {
    output.file_offset + contribution.output_offset + relocation.offset
}

/// The address of the field that a relocation changes.
pub open spec fn site_address(
    layout: LayoutView,
    output: OutputView,
    contribution: SectionContribution,
    relocation: InputRelocation,
) -> int {
    layout.image_base + output.virtual_address + contribution.output_offset + relocation.offset
}

/// The bytes that a relocation writes.
pub open spec fn patch(
    layout: LayoutView,
    output: OutputView,
    contribution: SectionContribution,
    relocation: InputRelocation,
) -> Result<Seq<u8>, LinkError> {
    let i = contribution.object_index as int;
    let reloc_va = site_address(layout, output, contribution, relocation);
    if site(output, contribution, relocation) > usize::MAX || reloc_va > u64::MAX {
        Err(LinkError::ArithmeticOverflow)
    } else {
        match pe_symbols::target_address(layout, i, relocation.target) {
            Err(e) => Err(e),
            Ok(target_addr) => patch_for(
                layout,
                output,
                contribution,
                relocation,
                reloc_va as u64,
                target_addr,
            ),
        }
    }
}

/// The buffer with one relocation applied.
pub open spec fn with_relocation(
    buf: Seq<u8>,
    layout: LayoutView,
    output: OutputView,
    contribution: SectionContribution,
    relocation: InputRelocation,
) -> Result<Seq<u8>, LinkError> {
    match patch(layout, output, contribution, relocation) {
        Err(e) => Err(e),
        Ok(data) => if data.len() == 0 {
            Ok(buf)
        } else {
            written(buf, site(output, contribution, relocation), data)
        },
    }
}

/// The buffer with the first `n` relocations applied.
pub open spec fn relocated(
    buf: Seq<u8>,
    layout: LayoutView,
    output: OutputView,
    contribution: SectionContribution,
    relocations: Seq<InputRelocation>,
    n: int,
) -> Result<Seq<u8>, LinkError>
    decreases n,
{
    if n <= 0 {
        Ok(buf)
    } else {
        match relocated(buf, layout, output, contribution, relocations, n - 1) {
            Err(e) => Err(e),
            Ok(before) => with_relocation(
                before,
                layout,
                output,
                contribution,
                relocations[n - 1],
            ),
        }
    }
}

/// Whether applying the relocations stops at the `n`-th one with an error: `after` is the buffer
/// with those in front of it applied, and it fails there.
pub open spec fn stops_at(
    buf: Seq<u8>,
    after: Seq<u8>,
    layout: LayoutView,
    output: OutputView,
    contribution: SectionContribution,
    relocations: Seq<InputRelocation>,
    n: int,
    e: LinkError,
) -> bool {
    &&& 0 <= n < relocations.len()
    &&& relocated(buf, layout, output, contribution, relocations, n) == Ok::<Seq<u8>, LinkError>(
        after,
    )
    &&& with_relocation(after, layout, output, contribution, relocations[n]) == Err::<
        Seq<u8>,
        LinkError,
    >(e)
}

/// Whether applying the relocations made `after` of the buffer: all of them are applied, or those
/// in front of the first that fails.
pub open spec fn is_relocated(
    buf: Seq<u8>,
    after: Seq<u8>,
    layout: LayoutView,
    output: OutputView,
    contribution: SectionContribution,
    relocations: Seq<InputRelocation>,
    r: Result<(), LinkError>,
) -> bool {
    let all = relocated(
        buf,
        layout,
        output,
        contribution,
        relocations,
        relocations.len() as int,
    );
    match r {
        Ok(()) => all == Ok::<Seq<u8>, LinkError>(after),
        Err(e) => {
            &&& all == Err::<Seq<u8>, LinkError>(e)
            &&& exists|n: int| #[trigger]
                stops_at(buf, after, layout, output, contribution, relocations, n, e)
        },
    }
}

/// An error stays.
proof fn lemma_relocated_error(
    buf: Seq<u8>,
    layout: LayoutView,
    output: OutputView,
    contribution: SectionContribution,
    relocations: Seq<InputRelocation>,
    n: int,
    m: int,
)
    requires
        0 <= n <= m,
        relocated(buf, layout, output, contribution, relocations, n) is Err,
    ensures
        relocated(buf, layout, output, contribution, relocations, m) == relocated(
            buf,
            layout,
            output,
            contribution,
            relocations,
            n,
        ),
    decreases m,
{
    if n < m {
        lemma_relocated_error(buf, layout, output, contribution, relocations, n, m - 1);
    }
}

/// Applies one relocation.
fn apply_relocation(
    buf: &mut [u8],
    layout: &PeLayout,
    output_section: &OutputSection,
    contribution: &SectionContribution,
    relocation: &InputRelocation,
) -> (r: Result<(), LinkError>)
    requires
        pe_symbols::is_consistent(layout@),
        contribution.object_index < layout@.objects.len(),
    ensures
        match r {
            Ok(()) => with_relocation(
                old(buf)@,
                layout@,
                output_section@,
                *contribution,
                *relocation,
            ) == Ok::<Seq<u8>, LinkError>(final(buf)@),
            Err(e) => with_relocation(
                old(buf)@,
                layout@,
                output_section@,
                *contribution,
                *relocation,
            ) == Err::<Seq<u8>, LinkError>(e) && final(buf)@ == old(buf)@,
        },
{
    broadcast use bytes::le_bytes_len;

    let inside: u64 = contribution.output_offset as u64 + relocation.offset as u64;
    let wide_offset: u64 = output_section.file_offset as u64 + inside;
    if wide_offset > usize::MAX as u64 {
        return Err(LinkError::ArithmeticOverflow);
    }
    let file_offset: usize = wide_offset as usize;
    let above_base: u64 = output_section.virtual_address as u64 + inside;
    if layout.image_base > u64::MAX - above_base {
        return Err(LinkError::ArithmeticOverflow);
    }
    let reloc_va: u64 = layout.image_base + above_base;
    let target_addr = match relocation_target_address(
        layout,
        contribution.object_index,
        &relocation.target,
    ) {
        Err(e) => return Err(e),
        Ok(address) => address,
    };
    let typ = relocation.typ;
    if typ == pe::IMAGE_REL_AMD64_ABSOLUTE {
        Ok(())
    } else if typ == pe::IMAGE_REL_AMD64_ADDR64 {
        write_u64(buf, file_offset, target_addr)
    } else if typ == pe::IMAGE_REL_AMD64_ADDR32 {
        match checked_u32(target_addr, RelocationName::Addr32) {
            Err(e) => Err(e),
            Ok(value) => write_u32(buf, file_offset, value),
        }
    } else if typ == pe::IMAGE_REL_AMD64_ADDR32NB {
        if target_addr < layout.image_base {
            return Err(LinkError::TargetBelowImageBase);
        }
        match checked_u32(target_addr - layout.image_base, RelocationName::Addr32Nb) {
            Err(e) => Err(e),
            Ok(value) => write_u32(buf, file_offset, value),
        }
    } else if typ == pe::IMAGE_REL_AMD64_REL32 {
        write_rel32(buf, file_offset, target_addr, reloc_va, 4)
    } else if typ == pe::IMAGE_REL_AMD64_REL32_1 {
        write_rel32(buf, file_offset, target_addr, reloc_va, 5)
    } else if typ == pe::IMAGE_REL_AMD64_REL32_2 {
        write_rel32(buf, file_offset, target_addr, reloc_va, 6)
    } else if typ == pe::IMAGE_REL_AMD64_REL32_3 {
        write_rel32(buf, file_offset, target_addr, reloc_va, 7)
    } else if typ == pe::IMAGE_REL_AMD64_REL32_4 {
        write_rel32(buf, file_offset, target_addr, reloc_va, 8)
    } else if typ == pe::IMAGE_REL_AMD64_REL32_5 {
        write_rel32(buf, file_offset, target_addr, reloc_va, 9)
    } else if typ == pe::IMAGE_REL_AMD64_SECTION {
        match find_section_number(layout, contribution.object_index, relocation.target) {
            Err(e) => Err(e),
            Ok(number) => write_u16(buf, file_offset, number),
        }
    } else if typ == pe::IMAGE_REL_AMD64_SECREL {
        let section_base: u64 = layout.image_base + output_section.virtual_address as u64;
        if target_addr < section_base {
            return Err(LinkError::TargetBelowSection);
        }
        match checked_u32(target_addr - section_base, RelocationName::SecRel) {
            Err(e) => Err(e),
            Ok(value) => write_u32(buf, file_offset, value),
        }
    } else {
        Err(
            LinkError::UnsupportedRelocation {
                typ,
                object: contribution.object_index,
                section: contribution.section_index,
            },
        )
    }
}

/// Returns the number of the output section that a `SECTION` relocation asks for.
fn find_section_number(
    layout: &PeLayout,
    object_index: usize,
    target: InputRelocationTarget,
) -> (r: Result<u16, LinkError>)
    requires
        object_index < layout@.objects.len(),
    ensures
        r == section_number(layout@, object_index as int, target),
{
    match target {
        InputRelocationTarget::Section(section_id) => section_symbol_index(
            layout,
            object_index,
            section_id,
        ),
        InputRelocationTarget::Symbol(symbol_index) => {
            let object = &layout.objects[object_index];
            assert(layout@.objects[object_index as int] == object@);
            if symbol_index >= object.symbols.len() {
                return Err(LinkError::SectionSymbolMissing);
            }
            assert(object@.symbols[symbol_index as int] == object.symbols@[symbol_index as int]@);
            match object.symbols[symbol_index].section.index() {
                None => Err(LinkError::SymbolWithoutSection),
                Some(section_id) => section_symbol_index(layout, object_index, section_id),
            }
        },
        InputRelocationTarget::Absolute => Ok(0),
    }
}

/// Applies the relocations of an input section to its contents in the file, up to the first that
/// fails.
pub fn apply_relocations(
    buf: &mut [u8],
    layout: &PeLayout,
    output_section: &OutputSection,
    contribution: &SectionContribution,
    input_section: &InputSection,
) -> (r: Result<(), LinkError>)
    requires
        pe_symbols::is_consistent(layout@),
        contribution.object_index < layout@.objects.len(),
    ensures
        final(buf)@.len() == old(buf)@.len(),
        is_relocated(
            old(buf)@,
            final(buf)@,
            layout@,
            output_section@,
            *contribution,
            input_section@.relocations,
            r,
        ),
{
    let ghost before = buf@;
    let ghost all = input_section@.relocations;
    let mut n: usize = 0;
    while n < input_section.relocations.len()
        invariant
            n <= input_section.relocations@.len(),
            before == old(buf)@,
            buf@.len() == before.len(),
            all == input_section@.relocations,
            pe_symbols::is_consistent(layout@),
            contribution.object_index < layout@.objects.len(),
            relocated(before, layout@, output_section@, *contribution, all, n as int) == Ok::<
                Seq<u8>,
                LinkError,
            >(buf@),
        decreases input_section.relocations@.len() - n,
    {
        match apply_relocation(
            buf,
            layout,
            output_section,
            contribution,
            &input_section.relocations[n],
        ) {
            Ok(()) => {},
            Err(e) => {
                proof {
                    lemma_relocated_error(
                        before,
                        layout@,
                        output_section@,
                        *contribution,
                        all,
                        n + 1,
                        all.len() as int,
                    );
                    assert(stops_at(
                        before,
                        buf@,
                        layout@,
                        output_section@,
                        *contribution,
                        all,
                        n as int,
                        e,
                    ));
                }
                return Err(e);
            },
        }
        n += 1;
    }
    Ok(())
}

} // verus!
