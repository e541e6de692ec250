//! Sections of a PE image, and what becomes of one input section.
use crate::align;
use crate::input::{InputSection, SectionView};
use crate::pe;
use vstd::arithmetic::power2;
use vstd::prelude::*;

verus! {

/// The section flags that an output section takes over from its inputs.
pub const MERGED_CHARACTERISTICS: u32 = 0xE000_00E0;

/// An input section that became part of an output section.
#[derive(Clone, Copy, PartialEq, Eq, Debug, Structural)]
pub struct SectionContribution {
    pub object_index: usize,
    pub section_index: usize,
    pub output_offset: u32,
    pub size: u32,
}

/// A section of the image.
pub struct OutputSection {
    pub name: [u8; 8],
    pub virtual_address: u32,
    pub virtual_size: u32,
    pub file_offset: u32,
    pub raw_data_size: u32,
    pub characteristics: u32,
    pub is_bss: bool,
    pub contributions: Vec<SectionContribution>,
}

/// Model of a section of the image.
#[verifier::ext_equal]
pub struct OutputView {
    pub name: Seq<u8>,
    pub virtual_address: u32,
    pub virtual_size: u32,
    pub file_offset: u32,
    pub raw_data_size: u32,
    pub characteristics: u32,
    pub is_bss: bool,
    pub contributions: Seq<SectionContribution>,
}

impl View for OutputSection {
    type V = OutputView;

    open spec fn view(&self) -> OutputView {
        OutputView {
            name: self.name@,
            virtual_address: self.virtual_address,
            virtual_size: self.virtual_size,
            file_offset: self.file_offset,
            raw_data_size: self.raw_data_size,
            characteristics: self.characteristics,
            is_bss: self.is_bss,
            contributions: self.contributions@,
        }
    }
}

/// The models of a list of output sections.
pub open spec fn output_views(sections: Seq<OutputSection>) -> Seq<OutputView> {
    Seq::new(sections.len(), |i: int| sections[i]@)
}

// ---- properties of one input section ----

/// The part of a section name in front of the first `$`.
pub open spec fn base_name(name: Seq<u8>) -> Seq<u8>
    decreases name.len(),
{
    if name.len() == 0 || name[0] == 0x24 {
        Seq::empty()
    } else {
        seq![name[0]] + base_name(name.drop_first())
    }
}

/// The first eight bytes of the base name, padded with zeros.
pub open spec fn output_name(name: Seq<u8>) -> Seq<u8> {
    Seq::new(
        8,
        |i: int|
            if i < base_name(name).len() {
                base_name(name)[i]
            } else {
                0u8
            },
    )
}

/// The alignment field of the section flags, bits 20 to 23.
pub open spec fn alignment_field(characteristics: u32) -> int {
    (characteristics as int / 0x10_0000) % 16
}

/// The alignment that the section flags ask for.
pub open spec fn section_alignment(characteristics: u32) -> int {
    if alignment_field(characteristics) == 0 {
        1
    } else {
        power2::pow2((alignment_field(characteristics) - 1) as nat) as int
    }
}

/// Whether the section only takes up memory.
pub open spec fn is_bss(characteristics: u32) -> bool {
    characteristics & pe::IMAGE_SCN_CNT_UNINITIALIZED_DATA != 0
}

/// Whether the section stays out of the image.
pub open spec fn is_discarded(section: SectionView) -> bool {
    ||| section.characteristics & pe::IMAGE_SCN_MEM_DISCARDABLE != 0
    ||| section.size == 0 && section.data.len() == 0
    ||| section.characteristics & MERGED_CHARACTERISTICS == 0
}

/// The bytes that the section takes up in the image.
pub open spec fn section_extent(section: SectionView) -> int {
    let data_len = if section.data.len() <= u32::MAX {
        section.data.len() as int
    } else {
        u32::MAX as int
    };
    if section.size <= data_len {
        data_len
    } else {
        section.size as int
    }
}

/// The place of an output section, by its name: `.text`, `.rdata`, `.data`, `.pdata`, `.xdata`,
/// `.bss`, then all others.
pub open spec fn sort_key(name: Seq<u8>) -> int {
    if name == seq![0x2eu8, 0x74, 0x65, 0x78, 0x74, 0, 0, 0] {
        0
    } else if name == seq![0x2eu8, 0x72, 0x64, 0x61, 0x74, 0x61, 0, 0] {
        1
    } else if name == seq![0x2eu8, 0x64, 0x61, 0x74, 0x61, 0, 0, 0] {
        2
    } else if name == seq![0x2eu8, 0x70, 0x64, 0x61, 0x74, 0x61, 0, 0] {
        3
    } else if name == seq![0x2eu8, 0x78, 0x64, 0x61, 0x74, 0x61, 0, 0] {
        4
    } else if name == seq![0x2eu8, 0x62, 0x73, 0x73, 0, 0, 0, 0] {
        5
    } else {
        10
    }
}

/// Returns whether the section stays out of the image: it is discardable, empty, or has none of
/// the flags that an output section can have.
pub fn should_discard_section(section: &InputSection) -> (r: bool)
    ensures
        r == is_discarded(section@),
{
    if section.characteristics & pe::IMAGE_SCN_MEM_DISCARDABLE != 0 {
        return true;
    }
    if section.size == 0 && section.data.len() == 0 {
        return true;
    }
    merge_characteristics(section.characteristics) == 0
}

/// Returns the name of the output section for an input section.
pub fn output_section_name(input_name: &[u8]) -> (out: [u8; 8])
    ensures
        out@ == output_name(input_name@),
{
    let mut out: [u8; 8] = [0u8; 8];
    let mut i: usize = 0;
    proof {
        lemma_base_name(input_name@);
    }
    while i < 8 && i < input_name.len() && input_name[i] != 0x24
        invariant
            i <= 8,
            i <= input_name@.len(),
            out@.len() == 8,
            forall|k: int| 0 <= k < i ==> input_name@[k] != 0x24,
            forall|k: int| 0 <= k < i ==> out@[k] == input_name@[k],
            forall|k: int| i <= k < 8 ==> out@[k] == 0,
        decreases 8 - i,
    {
        out[i] = input_name[i];
        i += 1;
    }
    assert(out@ =~= output_name(input_name@));
    out
}

/// The base name is the longest prefix without `$`.
pub proof fn lemma_base_name(name: Seq<u8>)
    ensures
        base_name(name).len() <= name.len(),
        base_name(name) == name.take(base_name(name).len() as int),
        forall|i: int| 0 <= i < base_name(name).len() ==> name[i] != 0x24,
        base_name(name).len() < name.len() ==> name[base_name(name).len() as int] == 0x24,
    decreases name.len(),
{
    if name.len() == 0 || name[0] == 0x24 {
        assert(base_name(name) =~= name.take(0));
    } else {
        let rest = name.drop_first();
        lemma_base_name(rest);
        let n = base_name(rest).len() as int;
        assert(base_name(name) =~= name.take(n + 1));
        assert forall|i: int| 0 <= i < base_name(name).len() implies name[i] != 0x24 by {
            if i > 0 {
                assert(rest[i - 1] == name[i]);
            }
        }
    }
}

/// Returns the flags that an output section takes over: the kinds of contents and the access
/// rights.
pub fn merge_characteristics(chars: u32) -> (r: u32)
    ensures
        r == chars & MERGED_CHARACTERISTICS,
{
    assert(0x20u32 | 0x40 | 0x80 | 0x2000_0000 | 0x4000_0000 | 0x8000_0000 == 0xE000_00E0)
        by (bit_vector);
    chars & (pe::IMAGE_SCN_CNT_CODE | pe::IMAGE_SCN_CNT_INITIALIZED_DATA
        | pe::IMAGE_SCN_CNT_UNINITIALIZED_DATA | pe::IMAGE_SCN_MEM_EXECUTE | pe::IMAGE_SCN_MEM_READ
        | pe::IMAGE_SCN_MEM_WRITE)
}

/// Returns the alignment that the section flags ask for.
pub fn coff_section_alignment(chars: u32) -> (r: u32)
    ensures
        r == section_alignment(chars),
{
    let align_field: u32 = (chars >> 20) & 0xF;
    assert(align_field == (chars / 0x10_0000) % 16 && align_field < 16) by (bit_vector)
        requires
            align_field == (chars >> 20) & 0xF,
    ;
    if align_field == 0 {
        1
    } else {
        let shift: u32 = align_field - 1;
        proof {
            vstd::bits::lemma_u32_pow2_no_overflow(shift as nat);
            vstd::bits::lemma_u32_shl_is_mul(1, shift);
        }
        1u32 << shift
    }
}

/// Returns the place of an output section among the others.
pub fn section_sort_key(name: &[u8; 8]) -> (r: u32)
    ensures
        r == sort_key(name@),
{
    if is_name(name, [0x2e, 0x74, 0x65, 0x78, 0x74, 0, 0, 0]) {
        0
    } else if is_name(name, [0x2e, 0x72, 0x64, 0x61, 0x74, 0x61, 0, 0]) {
        1
    } else if is_name(name, [0x2e, 0x64, 0x61, 0x74, 0x61, 0, 0, 0]) {
        2
    } else if is_name(name, [0x2e, 0x70, 0x64, 0x61, 0x74, 0x61, 0, 0]) {
        3
    } else if is_name(name, [0x2e, 0x78, 0x64, 0x61, 0x74, 0x61, 0, 0]) {
        4
    } else if is_name(name, [0x2e, 0x62, 0x73, 0x73, 0, 0, 0, 0]) {
        5
    } else {
        10
    }
}

/// Returns whether two section names are equal.
pub fn is_name(name: &[u8; 8], other: [u8; 8]) -> (r: bool)
    ensures
        r == (name@ =~= other@),
{
    let mut i: usize = 0;
    while i < 8
        invariant
            i <= 8,
            forall|k: int| 0 <= k < i ==> name@[k] == other@[k],
        decreases 8 - i,
    {
        if name[i] != other[i] {
            return false;
        }
        i += 1;
    }
    true
}

/// The alignment of a section is a power of two from 1 to 16384.
pub proof fn section_alignment_is_power_of_two(characteristics: u32)
    ensures
        align::is_power_of_two(section_alignment(characteristics)),
        1 <= section_alignment(characteristics) <= 16384,
{
    let field = alignment_field(characteristics);
    power2::lemma2_to64();
    if field == 0 {
        assert(power2::pow2(0) == 1);
    } else {
        let k = (field - 1) as nat;
        assert(section_alignment(characteristics) == power2::pow2(k));
    }
}

} // verus!
