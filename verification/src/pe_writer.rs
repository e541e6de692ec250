//! Writing of a PE image.
use crate::args::{PeArgs, WindowsSubsystem};
use crate::bytes;
use crate::bytes::{copy_at, push_le, write_le};
use crate::error::LinkError;
use crate::pe;
use crate::pe_grouping;
use crate::pe_layout;
use crate::pe_layout::{LayoutView, PeLayout};
use crate::pe_reloc;
use crate::pe_reloc::apply_relocations;
use crate::pe_section;
use crate::pe_section::{OutputSection, OutputView, SectionContribution};
use crate::pe_symbols;
use vstd::prelude::*;

verus! {

/// The bytes that the headers of an image with so many sections take up.
pub open spec fn header_bytes(num_sections: int) -> int {
    pe::DOS_HEADER_SIZE + pe::PE_SIGNATURE_SIZE + pe::COFF_HEADER_SIZE + pe::OPTIONAL_HEADER_SIZE
        + pe::SECTION_HEADER_SIZE * (num_sections % 0x1_0000_0000)
}

/// Returns the bytes that the headers of an image with so many sections take up; only the low 32
/// bits of the number of sections count.
pub fn headers_size(num_sections: usize) -> (r: u32)
    requires
        header_bytes(num_sections as int) <= u32::MAX,
    ensures
        r == header_bytes(num_sections as int),
{
    let n: u32 = low_bits(num_sections);
    pe::DOS_HEADER_SIZE + pe::PE_SIGNATURE_SIZE + pe::COFF_HEADER_SIZE + pe::OPTIONAL_HEADER_SIZE
        + pe::SECTION_HEADER_SIZE * n
}

/// Returns the low 32 bits of a number.
fn low_bits(n: usize) -> (r: u32)
    ensures
        r == n as int % 0x1_0000_0000,
{
    let wide: u64 = n as u64;
    assert(wide as u32 == wide % 0x1_0000_0000) by (bit_vector);
    wide as u32
}

/// Returns the size of the headers where it can be computed in 32 bits.
pub fn checked_headers_size(num_sections: usize) -> (r: Option<u32>)
    ensures
        r == (if header_bytes(num_sections as int) <= u32::MAX {
            Some(header_bytes(num_sections as int) as u32)
        } else {
            None
        }),
{
    if low_bits(num_sections) > (u32::MAX - 328) / pe::SECTION_HEADER_SIZE {
        None
    } else {
        Some(headers_size(num_sections))
    }
}

// ---- values of the header fields ----

/// The number of a subsystem.
pub open spec fn subsystem_number(subsystem: Option<WindowsSubsystem>) -> u16 {
    match subsystem {
        None | Some(WindowsSubsystem::Console) => pe::IMAGE_SUBSYSTEM_WINDOWS_CUI,
        Some(WindowsSubsystem::Windows) => pe::IMAGE_SUBSYSTEM_WINDOWS_GUI,
        Some(WindowsSubsystem::Native) => pe::IMAGE_SUBSYSTEM_NATIVE,
        Some(WindowsSubsystem::Posix) => pe::IMAGE_SUBSYSTEM_POSIX_CUI,
        Some(
            WindowsSubsystem::BootApplication,
        ) => pe::IMAGE_SUBSYSTEM_WINDOWS_BOOT_APPLICATION,
        Some(WindowsSubsystem::EfiApplication) => pe::IMAGE_SUBSYSTEM_EFI_APPLICATION,
        Some(
            WindowsSubsystem::EfiBootServiceDriver,
        ) => pe::IMAGE_SUBSYSTEM_EFI_BOOT_SERVICE_DRIVER,
        Some(WindowsSubsystem::EfiRom) => pe::IMAGE_SUBSYSTEM_EFI_ROM,
        Some(WindowsSubsystem::EfiRuntimeDriver) => pe::IMAGE_SUBSYSTEM_EFI_RUNTIME_DRIVER,
    }
}

/// Returns the number of a subsystem; without one the image is for the console.
pub fn subsystem(asked: Option<WindowsSubsystem>) -> (r: u16)
    ensures
        r == subsystem_number(asked),
{
    match asked {
        None => pe::IMAGE_SUBSYSTEM_WINDOWS_CUI,
        Some(WindowsSubsystem::Console) => pe::IMAGE_SUBSYSTEM_WINDOWS_CUI,
        Some(WindowsSubsystem::Windows) => pe::IMAGE_SUBSYSTEM_WINDOWS_GUI,
        Some(WindowsSubsystem::Native) => pe::IMAGE_SUBSYSTEM_NATIVE,
        Some(WindowsSubsystem::Posix) => pe::IMAGE_SUBSYSTEM_POSIX_CUI,
        Some(
            WindowsSubsystem::BootApplication,
        ) => pe::IMAGE_SUBSYSTEM_WINDOWS_BOOT_APPLICATION,
        Some(WindowsSubsystem::EfiApplication) => pe::IMAGE_SUBSYSTEM_EFI_APPLICATION,
        Some(
            WindowsSubsystem::EfiBootServiceDriver,
        ) => pe::IMAGE_SUBSYSTEM_EFI_BOOT_SERVICE_DRIVER,
        Some(WindowsSubsystem::EfiRom) => pe::IMAGE_SUBSYSTEM_EFI_ROM,
        Some(WindowsSubsystem::EfiRuntimeDriver) => pe::IMAGE_SUBSYSTEM_EFI_RUNTIME_DRIVER,
    }
}

/// The flag, if it is asked for.
pub open spec fn flag(asked: bool, bits: u16) -> u16 {
    if asked {
        bits
    } else {
        0
    }
}

/// The DLL characteristics that the options ask for.
pub open spec fn dll_flags(args: PeArgs) -> u16 {
    flag(args.high_entropy_va, pe::IMAGE_DLLCHARACTERISTICS_HIGH_ENTROPY_VA) | flag(
        args.dynamic_base,
        pe::IMAGE_DLLCHARACTERISTICS_DYNAMIC_BASE,
    ) | flag(args.nx_compat, pe::IMAGE_DLLCHARACTERISTICS_NX_COMPAT) | flag(
        args.terminal_server_aware,
        pe::IMAGE_DLLCHARACTERISTICS_TERMINAL_SERVER_AWARE,
    )
}

/// Returns the flag, if it is asked for.
fn flag_if(asked: bool, bits: u16) -> (r: u16)
    ensures
        r == flag(asked, bits),
{
    if asked {
        bits
    } else {
        0
    }
}

/// Returns the DLL characteristics that the options ask for.
pub fn dll_characteristics(args: &PeArgs) -> (r: u16)
    ensures
        r == dll_flags(*args),
{
    flag_if(args.high_entropy_va, pe::IMAGE_DLLCHARACTERISTICS_HIGH_ENTROPY_VA) | flag_if(
        args.dynamic_base,
        pe::IMAGE_DLLCHARACTERISTICS_DYNAMIC_BASE,
    ) | flag_if(args.nx_compat, pe::IMAGE_DLLCHARACTERISTICS_NX_COMPAT) | flag_if(
        args.terminal_server_aware,
        pe::IMAGE_DLLCHARACTERISTICS_TERMINAL_SERVER_AWARE,
    )
}

/// The file characteristics that the options ask for.
pub open spec fn file_flags(args: PeArgs) -> u16 {
    pe::IMAGE_FILE_EXECUTABLE_IMAGE | flag(
        args.large_address_aware,
        pe::IMAGE_FILE_LARGE_ADDRESS_AWARE,
    ) | flag(args.is_dll, pe::IMAGE_FILE_DLL)
}

/// The size in the file of those of the first `n` sections that have the flag.
pub open spec fn raw_total(sections: Seq<OutputView>, kind: u32, n: int) -> nat
    decreases n,
{
    if n <= 0 {
        0
    } else if sections[n - 1].characteristics & kind != 0 {
        raw_total(sections, kind, n - 1) + sections[n - 1].raw_data_size as nat
    } else {
        raw_total(sections, kind, n - 1)
    }
}

/// The size in memory of those of the first `n` sections that have the flag.
pub open spec fn memory_total(sections: Seq<OutputView>, kind: u32, n: int) -> nat
    decreases n,
{
    if n <= 0 {
        0
    } else if sections[n - 1].characteristics & kind != 0 {
        memory_total(sections, kind, n - 1) + sections[n - 1].virtual_size as nat
    } else {
        memory_total(sections, kind, n - 1)
    }
}

/// The address of the first of the first `n` sections that holds code, zero without any.
pub open spec fn first_code(sections: Seq<OutputView>, n: int) -> u32
    decreases n,
{
    if n <= 0 {
        0
    } else if first_code(sections, n - 1) == 0 && sections[n - 1].characteristics
        & pe::IMAGE_SCN_CNT_CODE != 0 {
        sections[n - 1].virtual_address
    } else {
        first_code(sections, n - 1)
    }
}

/// Sums over the sections of an image.
#[derive(Clone, Copy, PartialEq, Eq, Debug, Structural)]
pub struct SectionTotals {
    pub size_of_code: u32,
    pub size_of_initialized_data: u32,
    pub size_of_uninitialized_data: u32,
    pub base_of_code: u32,
}

/// Whether the sums over the first `n` sections fit in their fields.
pub open spec fn totals_fit(sections: Seq<OutputView>, n: int) -> bool {
    &&& raw_total(sections, pe::IMAGE_SCN_CNT_CODE, n) <= u32::MAX
    &&& raw_total(sections, pe::IMAGE_SCN_CNT_INITIALIZED_DATA, n) <= u32::MAX
    &&& memory_total(sections, pe::IMAGE_SCN_CNT_UNINITIALIZED_DATA, n) <= u32::MAX
}

/// The sums over the first `n` sections.
pub open spec fn totals(sections: Seq<OutputView>, n: int) -> SectionTotals {
    SectionTotals {
        size_of_code: raw_total(sections, pe::IMAGE_SCN_CNT_CODE, n) as u32,
        size_of_initialized_data: raw_total(
            sections,
            pe::IMAGE_SCN_CNT_INITIALIZED_DATA,
            n,
        ) as u32,
        size_of_uninitialized_data: memory_total(
            sections,
            pe::IMAGE_SCN_CNT_UNINITIALIZED_DATA,
            n,
        ) as u32,
        base_of_code: first_code(sections, n),
    }
}

/// Sums only grow.
proof fn lemma_totals_grow(sections: Seq<OutputView>, n: int, m: int)
    requires
        0 <= n <= m,
        totals_fit(sections, m),
    ensures
        totals_fit(sections, n),
    decreases m,
{
    if n < m {
        lemma_totals_grow(sections, n, m - 1);
    }
}

/// Returns the sums over the sections, if they fit in their fields.
fn section_totals(sections: &Vec<OutputSection>) -> (r: Option<SectionTotals>)
    ensures
        ({
            let views = pe_section::output_views(sections@);
            r == (if totals_fit(views, views.len() as int) {
                Some(totals(views, views.len() as int))
            } else {
                None
            })
        }),
{
    let ghost views = pe_section::output_views(sections@);
    let mut sums = SectionTotals {
        size_of_code: 0,
        size_of_initialized_data: 0,
        size_of_uninitialized_data: 0,
        base_of_code: 0,
    };
    let mut k: usize = 0;
    while k < sections.len()
        invariant
            k <= sections@.len(),
            views == pe_section::output_views(sections@),
            totals_fit(views, k as int),
            sums == totals(views, k as int),
        decreases sections@.len() - k,
    {
        assert(views[k as int] == sections@[k as int]@);
        proof {
            if totals_fit(views, views.len() as int) {
                lemma_totals_grow(views, k + 1, views.len() as int);
            }
        }
        let section = &sections[k];
        if section.characteristics & pe::IMAGE_SCN_CNT_CODE != 0 {
            if sums.size_of_code > u32::MAX - section.raw_data_size {
                return None;
            }
            sums.size_of_code = sums.size_of_code + section.raw_data_size;
            if sums.base_of_code == 0 {
                sums.base_of_code = section.virtual_address;
            }
        }
        if section.characteristics & pe::IMAGE_SCN_CNT_INITIALIZED_DATA != 0 {
            if sums.size_of_initialized_data > u32::MAX - section.raw_data_size {
                return None;
            }
            sums.size_of_initialized_data = sums.size_of_initialized_data + section.raw_data_size;
        }
        if section.characteristics & pe::IMAGE_SCN_CNT_UNINITIALIZED_DATA != 0 {
            if sums.size_of_uninitialized_data > u32::MAX - section.virtual_size {
                return None;
            }
            sums.size_of_uninitialized_data = sums.size_of_uninitialized_data
                + section.virtual_size;
        }
        k += 1;
    }
    Some(sums)
}

// ---- headers ----

/// A number in a header: where it stands, how many bytes it has, and its value.
#[derive(Clone, Copy, PartialEq, Eq, Debug, Structural)]
pub struct HeaderField {
    pub offset: usize,
    pub width: usize,
    pub value: u64,
}

/// A number in a header.
pub open spec fn field(offset: int, width: int, value: int) -> HeaderField {
    HeaderField { offset: offset as usize, width: width as usize, value: value as u64 }
}

/// The fields of the DOS header, the signature and the COFF header.
pub open spec fn file_fields(args: PeArgs, layout: LayoutView) -> Seq<HeaderField> {
    seq![
        field(0, 2, pe::IMAGE_DOS_SIGNATURE as int),
        field(60, 4, pe::DOS_HEADER_SIZE as int),
        field(64, 4, pe::IMAGE_NT_SIGNATURE as int),
        field(68, 2, layout.machine as int),
        field(70, 2, layout.sections.len() as int % 0x1_0000),
        field(72, 4, 0),
        field(76, 4, 0),
        field(80, 4, 0),
        field(84, 2, pe::OPTIONAL_HEADER_SIZE as int),
        field(86, 2, file_flags(args) as int),
    ]
}

/// The fields of the optional header.
pub open spec fn optional_fields(args: PeArgs, layout: LayoutView) -> Seq<HeaderField> {
    let sums = totals(layout.sections, layout.sections.len() as int);
    seq![
        field(88, 2, pe::IMAGE_NT_OPTIONAL_HDR64_MAGIC as int),
        field(90, 1, 1),
        field(91, 1, 0),
        field(92, 4, sums.size_of_code as int),
        field(96, 4, sums.size_of_initialized_data as int),
        field(100, 4, sums.size_of_uninitialized_data as int),
        field(104, 4, layout.entry_point_rva as int),
        field(108, 4, sums.base_of_code as int),
        field(112, 8, layout.image_base as int),
        field(120, 4, pe_layout::SECTION_ALIGNMENT as int),
        field(124, 4, pe_layout::FILE_ALIGNMENT as int),
        field(128, 2, 6),
        field(130, 2, 0),
        field(136, 2, 6),
        field(138, 2, 0),
        field(144, 4, layout.size_of_image as int),
        field(148, 4, layout.size_of_headers as int),
        field(156, 2, subsystem_number(args.subsystem) as int),
        field(158, 2, dll_flags(args) as int),
        field(160, 8, or_default(args.stack_size) as int),
        field(168, 8, 0x1000),
        field(176, 8, or_default(args.heap_size) as int),
        field(184, 8, 0x1000),
        field(196, 4, pe::IMAGE_NUMBEROF_DIRECTORY_ENTRIES as int),
    ]
}

/// The size that was asked for, one megabyte without any.
pub open spec fn or_default(size: Option<u64>) -> u64 {
    match size {
        Some(n) => n,
        None => 0x100000,
    }
}

/// The buffer with the first `n` fields written.
pub open spec fn with_fields(buf: Seq<u8>, fields: Seq<HeaderField>, n: int) -> Seq<u8>
    decreases n,
{
    if n <= 0 {
        buf
    } else {
        bytes::put(
            with_fields(buf, fields, n - 1),
            fields[n - 1].offset as int,
            bytes::le_bytes(fields[n - 1].value as int, fields[n - 1].width as nat),
        )
    }
}

/// So many zeros.
pub open spec fn zeros(n: nat) -> Seq<u8> {
    Seq::new(n, |i: int| 0u8)
}

/// The header of a section.
pub open spec fn section_header(output: OutputView) -> Seq<u8> {
    output.name + bytes::le_bytes(output.virtual_size as int, 4) + bytes::le_bytes(
        output.virtual_address as int,
        4,
    ) + bytes::le_bytes(
        if output.is_bss {
            0
        } else {
            output.raw_data_size as int
        },
        4,
    ) + bytes::le_bytes(output.file_offset as int, 4) + bytes::le_bytes(0, 4) + bytes::le_bytes(
        0,
        4,
    ) + bytes::le_bytes(0, 2) + bytes::le_bytes(0, 2) + bytes::le_bytes(
        output.characteristics as int,
        4,
    )
}

/// Where the header of the `k`-th section stands.
pub open spec fn section_header_at(k: int) -> int {
    328 + 40 * k
}

/// The buffer with the headers of the first `n` sections written.
pub open spec fn with_section_headers(buf: Seq<u8>, sections: Seq<OutputView>, n: int) -> Seq<u8>
    decreases n,
{
    if n <= 0 {
        buf
    } else {
        bytes::put(
            with_section_headers(buf, sections, n - 1),
            section_header_at(n - 1),
            section_header(sections[n - 1]),
        )
    }
}

/// Why the headers do not fit in a buffer of so many bytes: `need` is the end of the first header
/// that does not.
pub open spec fn headers_error(have: int, layout: LayoutView) -> Option<LinkError> {
    let n = layout.sections.len() as int;
    if have < 64 {
        Some(LinkError::HeaderOutOfBounds { need: 64, have: have as u64 })
    } else if have < 68 {
        Some(LinkError::HeaderOutOfBounds { need: 68, have: have as u64 })
    } else if have < 88 {
        Some(LinkError::HeaderOutOfBounds { need: 88, have: have as u64 })
    } else if have < 200 {
        Some(LinkError::HeaderOutOfBounds { need: 200, have: have as u64 })
    } else if !totals_fit(layout.sections, n) {
        Some(LinkError::ArithmeticOverflow)
    } else if have < 328 {
        Some(LinkError::HeaderOutOfBounds { need: 328, have: have as u64 })
    } else if have < section_header_at(n) {
        let need = section_header_at((have - 328) / 40 + 1);
        if need > usize::MAX {
            Some(LinkError::ArithmeticOverflow)
        } else {
            Some(LinkError::HeaderOutOfBounds { need: need as u64, have: have as u64 })
        }
    } else {
        None
    }
}

/// The buffer with all headers written.
pub open spec fn with_headers(buf: Seq<u8>, args: PeArgs, layout: LayoutView) -> Seq<u8> {
    let fields = file_fields(args, layout) + optional_fields(args, layout);
    let fixed = bytes::put(with_fields(buf, fields, fields.len() as int), 200, zeros(128));
    with_section_headers(fixed, layout.sections, layout.sections.len() as int)
}

/// How many fields of the DOS header, the signature and the COFF header are written to a buffer of
/// so many bytes: a header is written if all of it fits.
pub open spec fn fitting_fields(have: int) -> int {
    if have < 64 {
        0
    } else if have < 68 {
        2
    } else if have < 88 {
        3
    } else {
        10
    }
}

/// What is left of a buffer that the headers do not fit in: the headers in front of the first that
/// does not fit are written.
pub open spec fn with_fitting_headers(buf: Seq<u8>, args: PeArgs, layout: LayoutView) -> Seq<u8> {
    let have = buf.len() as int;
    let fields = file_fields(args, layout) + optional_fields(args, layout);
    if have < 200 || !totals_fit(layout.sections, layout.sections.len() as int) {
        with_fields(buf, file_fields(args, layout), fitting_fields(have))
    } else if have < 328 {
        with_fields(buf, fields, fields.len() as int)
    } else {
        let fixed = bytes::put(with_fields(buf, fields, fields.len() as int), 200, zeros(128));
        with_section_headers(fixed, layout.sections, (have - 328) / 40)
    }
}

/// Returns the fields of the DOS header, the signature and the COFF header.
fn list_file_fields(args: &PeArgs, layout: &PeLayout) -> (fields: Vec<HeaderField>)
    ensures
        fields@ == file_fields(*args, layout@),
{
    let mut fields: Vec<HeaderField> = Vec::new();
    let number_of_sections: u64 = layout.sections.len() as u64 % 0x1_0000;
    let characteristics: u16 = pe::IMAGE_FILE_EXECUTABLE_IMAGE | flag_if(
        args.large_address_aware,
        pe::IMAGE_FILE_LARGE_ADDRESS_AWARE,
    ) | flag_if(args.is_dll, pe::IMAGE_FILE_DLL);
    fields.push(HeaderField { offset: 0, width: 2, value: pe::IMAGE_DOS_SIGNATURE as u64 });
    fields.push(HeaderField { offset: 60, width: 4, value: pe::DOS_HEADER_SIZE as u64 });
    fields.push(HeaderField { offset: 64, width: 4, value: pe::IMAGE_NT_SIGNATURE as u64 });
    fields.push(HeaderField { offset: 68, width: 2, value: layout.machine as u64 });
    fields.push(HeaderField { offset: 70, width: 2, value: number_of_sections });
    fields.push(HeaderField { offset: 72, width: 4, value: 0 });
    fields.push(HeaderField { offset: 76, width: 4, value: 0 });
    fields.push(HeaderField { offset: 80, width: 4, value: 0 });
    fields.push(HeaderField { offset: 84, width: 2, value: pe::OPTIONAL_HEADER_SIZE as u64 });
    fields.push(HeaderField { offset: 86, width: 2, value: characteristics as u64 });
    assert(fields@ =~= file_fields(*args, layout@));
    fields
}

/// Returns the size that was asked for.
fn size_or_default(size: Option<u64>) -> (r: u64)
    ensures
        r == or_default(size),
{
    match size {
        Some(n) => n,
        None => 0x100000,
    }
}

/// Returns the fields of the optional header.
fn list_optional_fields(args: &PeArgs, layout: &PeLayout, sums: SectionTotals) -> (fields: Vec<
    HeaderField,
>)
    requires
        sums == totals(layout@.sections, layout@.sections.len() as int),
    ensures
        fields@ == optional_fields(*args, layout@),
{
    let mut fields: Vec<HeaderField> = Vec::new();
    fields.push(
        HeaderField { offset: 88, width: 2, value: pe::IMAGE_NT_OPTIONAL_HDR64_MAGIC as u64 },
    );
    fields.push(HeaderField { offset: 90, width: 1, value: 1 });
    fields.push(HeaderField { offset: 91, width: 1, value: 0 });
    fields.push(HeaderField { offset: 92, width: 4, value: sums.size_of_code as u64 });
    fields.push(HeaderField { offset: 96, width: 4, value: sums.size_of_initialized_data as u64 });
    fields.push(
        HeaderField { offset: 100, width: 4, value: sums.size_of_uninitialized_data as u64 },
    );
    fields.push(HeaderField { offset: 104, width: 4, value: layout.entry_point_rva as u64 });
    fields.push(HeaderField { offset: 108, width: 4, value: sums.base_of_code as u64 });
    fields.push(HeaderField { offset: 112, width: 8, value: layout.image_base });
    fields.push(
        HeaderField { offset: 120, width: 4, value: pe_layout::SECTION_ALIGNMENT as u64 },
    );
    fields.push(HeaderField { offset: 124, width: 4, value: pe_layout::FILE_ALIGNMENT as u64 });
    fields.push(HeaderField { offset: 128, width: 2, value: 6 });
    fields.push(HeaderField { offset: 130, width: 2, value: 0 });
    fields.push(HeaderField { offset: 136, width: 2, value: 6 });
    fields.push(HeaderField { offset: 138, width: 2, value: 0 });
    fields.push(HeaderField { offset: 144, width: 4, value: layout.size_of_image as u64 });
    fields.push(HeaderField { offset: 148, width: 4, value: layout.size_of_headers as u64 });
    fields.push(HeaderField { offset: 156, width: 2, value: subsystem(args.subsystem) as u64 });
    fields.push(HeaderField { offset: 158, width: 2, value: dll_characteristics(args) as u64 });
    fields.push(HeaderField { offset: 160, width: 8, value: size_or_default(args.stack_size) });
    fields.push(HeaderField { offset: 168, width: 8, value: 0x1000 });
    fields.push(HeaderField { offset: 176, width: 8, value: size_or_default(args.heap_size) });
    fields.push(HeaderField { offset: 184, width: 8, value: 0x1000 });
    fields.push(
        HeaderField { offset: 196, width: 4, value: pe::IMAGE_NUMBEROF_DIRECTORY_ENTRIES as u64 },
    );
    assert(fields@ =~= optional_fields(*args, layout@));
    fields
}

/// Fields do not change the length of the buffer.
pub proof fn lemma_with_fields_len(buf: Seq<u8>, fields: Seq<HeaderField>, n: int)
    ensures
        with_fields(buf, fields, n).len() == buf.len(),
    decreases n,
{
    if n > 0 {
        lemma_with_fields_len(buf, fields, n - 1);
    }
}

/// Fields can be written in two goes.
pub proof fn lemma_with_fields_split(
    buf: Seq<u8>,
    first: Seq<HeaderField>,
    second: Seq<HeaderField>,
    n: int,
)
    requires
        0 <= n <= first.len() + second.len(),
    ensures
        with_fields(buf, first + second, n) == (if n <= first.len() {
            with_fields(buf, first, n)
        } else {
            with_fields(
                with_fields(buf, first, first.len() as int),
                second,
                n - first.len(),
            )
        }),
    decreases n,
{
    if n > 0 {
        lemma_with_fields_split(buf, first, second, n - 1);
        if n <= first.len() {
            assert((first + second)[n - 1] == first[n - 1]);
        } else {
            let middle = with_fields(buf, first, first.len() as int);
            assert((first + second)[n - 1] == second[n - 1 - first.len()]);
            assert(with_fields(middle, second, 0) == middle);
            assert(with_fields(buf, first + second, n - 1) == with_fields(
                middle,
                second,
                n - 1 - first.len(),
            ));
        }
    }
}

/// Writes the first `n` fields, which fit in the buffer.
fn write_fields(buf: &mut [u8], fields: &Vec<HeaderField>, n: usize)
    requires
        n <= fields@.len(),
        forall|k: int|
            0 <= k < n ==> (#[trigger] fields@[k]).offset + fields@[k].width <= old(buf)@.len(),
    ensures
        final(buf)@ == with_fields(old(buf)@, fields@, n as int),
{
    let ghost before = buf@;
    let mut k: usize = 0;
    while k < n
        invariant
            k <= n <= fields@.len(),
            buf@ == with_fields(before, fields@, k as int),
            buf@.len() == before.len(),
            forall|k: int|
                0 <= k < n ==> (#[trigger] fields@[k]).offset + fields@[k].width <= before.len(),
        decreases n - k,
    {
        let field = fields[k];
        write_le(buf, field.offset, field.value, field.width);
        k += 1;
    }
}

/// Returns the header of a section.
fn make_section_header(section: &OutputSection) -> (header: Vec<u8>)
    ensures
        header@ == section_header(section@),
        header@.len() == 40,
{
    let mut header: Vec<u8> = Vec::new();
    let mut i: usize = 0;
    while i < 8
        invariant
            i <= 8,
            header@ == section.name@.take(i as int),
        decreases 8 - i,
    {
        header.push(section.name[i]);
        assert(header@ =~= section.name@.take(i + 1));
        i += 1;
    }
    assert(header@ =~= section.name@);
    let raw_data_size: u32 = if section.is_bss {
        0
    } else {
        section.raw_data_size
    };
    push_le(&mut header, section.virtual_size as u64, 4);
    push_le(&mut header, section.virtual_address as u64, 4);
    push_le(&mut header, raw_data_size as u64, 4);
    push_le(&mut header, section.file_offset as u64, 4);
    push_le(&mut header, 0, 4);
    push_le(&mut header, 0, 4);
    push_le(&mut header, 0, 2);
    push_le(&mut header, 0, 2);
    push_le(&mut header, section.characteristics as u64, 4);
    assert(header@ == section_header(section@));
    proof {
        lemma_section_header_len(section@);
    }
    header
}

/// The header of a section has 40 bytes.
pub proof fn lemma_section_header_len(output: OutputView)
    requires
        output.name.len() == 8,
    ensures
        section_header(output).len() == 40,
{
    broadcast use bytes::le_bytes_len;

}

/// Writes the headers of the image, up to the first that does not fit; what is not set stays as it
/// is.
pub fn write_headers(buf: &mut [u8], args: &PeArgs, layout: &PeLayout) -> (r: Result<
    (),
    LinkError,
>)
    ensures
        final(buf)@.len() == old(buf)@.len(),
        match r {
            Ok(()) => headers_error(old(buf)@.len() as int, layout@) is None && final(buf)@
                == with_headers(old(buf)@, *args, layout@),
            Err(e) => headers_error(old(buf)@.len() as int, layout@) == Some(e) && final(buf)@
                == with_fitting_headers(old(buf)@, *args, layout@),
        },
{
    let ghost before = buf@;
    let have = buf.len();
    let first = list_file_fields(args, layout);
    let fitting: usize = if have < 64 {
        0
    } else if have < 68 {
        2
    } else if have < 88 {
        3
    } else {
        first.len()
    };
    write_fields(buf, &first, fitting);
    proof {
        lemma_with_fields_len(before, first@, fitting as int);
    }
    if have < 64 {
        return Err(LinkError::HeaderOutOfBounds { need: 64, have: have as u64 });
    }
    if have < 68 {
        return Err(LinkError::HeaderOutOfBounds { need: 68, have: have as u64 });
    }
    if have < 88 {
        return Err(LinkError::HeaderOutOfBounds { need: 88, have: have as u64 });
    }
    if have < 200 {
        return Err(LinkError::HeaderOutOfBounds { need: 200, have: have as u64 });
    }
    let sums = match section_totals(&layout.sections) {
        None => return Err(LinkError::ArithmeticOverflow),
        Some(sums) => sums,
    };
    let second = list_optional_fields(args, layout, sums);
    let ghost middle = buf@;
    write_fields(buf, &second, second.len());
    proof {
        lemma_with_fields_len(middle, second@, second@.len() as int);
        lemma_with_fields_split(before, first@, second@, (first@ + second@).len() as int);
        let fields = first@ + second@;
        assert(fields == file_fields(*args, layout@) + optional_fields(*args, layout@));
        assert(buf@ == with_fields(before, fields, fields.len() as int));
    }
    if have < 328 {
        return Err(LinkError::HeaderOutOfBounds { need: 328, have: have as u64 });
    }
    let directories = vec![0u8; 128];
    assert(directories@ =~= zeros(128));
    assert(directories@.take(128) =~= zeros(128));
    copy_at(buf, 200, directories.as_slice(), 128);
    let ghost fixed = buf@;
    let ghost fields = file_fields(*args, layout@) + optional_fields(*args, layout@);
    let mut offset: usize = 328;
    let mut k: usize = 0;
    while k < layout.sections.len()
        invariant
            k <= layout.sections@.len(),
            offset == section_header_at(k as int),
            offset <= have == buf@.len(),
            totals_fit(layout@.sections, layout@.sections.len() as int),
            buf@ == with_section_headers(fixed, layout@.sections, k as int),
            fields == file_fields(*args, layout@) + optional_fields(*args, layout@),
            fixed == bytes::put(
                with_fields(old(buf)@, fields, fields.len() as int),
                200,
                zeros(128),
            ),
            have == old(buf)@.len(),
            have >= 328,
        decreases layout.sections@.len() - k,
    {
        assert(layout@.sections[k as int] == layout.sections@[k as int]@);
        if have - offset < 40 {
            proof {
                assert((have - 328) / 40 == k);
                assert(have < section_header_at(layout@.sections.len() as int));
            }
            if offset > usize::MAX - 40 {
                return Err(LinkError::ArithmeticOverflow);
            }
            return Err(
                LinkError::HeaderOutOfBounds { need: (offset + 40) as u64, have: have as u64 },
            );
        }
        let header = make_section_header(&layout.sections[k]);
        assert(header@.take(40) =~= header@);
        copy_at(buf, offset, header.as_slice(), 40);
        offset = offset + 40;
        k += 1;
    }
    Ok(())
}

// ---- contents of the sections ----

/// Whether every contribution stands for an input section that exists.
pub open spec fn contributions_exist(layout: LayoutView) -> bool {
    forall|k: int, c: int|
        0 <= k < layout.sections.len() && 0 <= c < layout.sections[k].contributions.len()
            ==> pe_grouping::has_section(
            layout.objects,
            (#[trigger] layout.sections[k].contributions[c]).object_index as int,
            layout.sections[k].contributions[c].section_index as int,
        )
}

/// The bytes of a contribution that stand in the file.
pub open spec fn contribution_data(layout: LayoutView, contribution: SectionContribution) -> Seq<
    u8,
> {
    let data = pe_grouping::source(layout.objects, contribution).data;
    if data.len() <= contribution.size {
        data
    } else {
        data.take(contribution.size as int)
    }
}

/// Where a contribution stands in the file.
pub open spec fn contribution_at(output: OutputView, contribution: SectionContribution) -> int {
    output.file_offset + contribution.output_offset
}

/// The buffer with a contribution written and relocated.
pub open spec fn with_contribution(
    buf: Seq<u8>,
    layout: LayoutView,
    output: OutputView,
    contribution: SectionContribution,
) -> Result<Seq<u8>, LinkError> {
    let data = contribution_data(layout, contribution);
    let at = contribution_at(output, contribution);
    let relocations = pe_grouping::source(layout.objects, contribution).relocations;
    if at > usize::MAX {
        Err(LinkError::ArithmeticOverflow)
    } else if at + data.len() > buf.len() {
        Err(
            LinkError::SectionOutOfBounds {
                object: contribution.object_index,
                section: contribution.section_index,
            },
        )
    } else {
        pe_reloc::relocated(
            bytes::put(buf, at, data),
            layout,
            output,
            contribution,
            relocations,
            relocations.len() as int,
        )
    }
}

/// Whether writing a contribution stops with an error and leaves `after` of the buffer: as it was
/// where there is no room, else with the contents and the relocations in front of the first that
/// fails.
pub open spec fn contribution_stops(
    buf: Seq<u8>,
    after: Seq<u8>,
    layout: LayoutView,
    output: OutputView,
    contribution: SectionContribution,
    e: LinkError,
) -> bool {
    let data = contribution_data(layout, contribution);
    let at = contribution_at(output, contribution);
    &&& with_contribution(buf, layout, output, contribution) == Err::<Seq<u8>, LinkError>(e)
    &&& if at > usize::MAX || at + data.len() > buf.len() {
        after == buf
    } else {
        pe_reloc::is_relocated(
            bytes::put(buf, at, data),
            after,
            layout,
            output,
            contribution,
            pe_grouping::source(layout.objects, contribution).relocations,
            Err(e),
        )
    }
}

/// The buffer with the first `k` sections, and the first `c` contributions of the section behind
/// them, written. Sections that only take up memory are left out.
pub open spec fn with_contents(buf: Seq<u8>, layout: LayoutView, k: int, c: int) -> Result<
    Seq<u8>,
    LinkError,
>
    decreases k, c,
{
    if c > 0 {
        match with_contents(buf, layout, k, c - 1) {
            Err(e) => Err(e),
            Ok(before) => with_contribution(
                before,
                layout,
                layout.sections[k],
                layout.sections[k].contributions[c - 1],
            ),
        }
    } else if k > 0 {
        if layout.sections[k - 1].is_bss {
            with_contents(buf, layout, k - 1, 0)
        } else {
            with_contents(buf, layout, k - 1, layout.sections[k - 1].contributions.len() as int)
        }
    } else {
        Ok(buf)
    }
}

/// An error stays.
proof fn lemma_with_contents_error(buf: Seq<u8>, layout: LayoutView, k: int, c: int)
    requires
        0 <= k < layout.sections.len(),
        0 <= c <= layout.sections[k].contributions.len(),
        !layout.sections[k].is_bss,
        with_contents(buf, layout, k, c) is Err,
    ensures
        with_contents(buf, layout, layout.sections.len() as int, 0) == with_contents(
            buf,
            layout,
            k,
            c,
        ),
    decreases layout.sections.len() - k, layout.sections[k].contributions.len() - c,
{
    if c < layout.sections[k].contributions.len() {
        assert(with_contents(buf, layout, k, c + 1) == with_contents(buf, layout, k, c));
        lemma_with_contents_error(buf, layout, k, c + 1);
    } else {
        assert(with_contents(buf, layout, k + 1, 0) == with_contents(buf, layout, k, c));
        lemma_with_contents_error_ahead(buf, layout, k + 1);
    }
}

/// An error stays.
proof fn lemma_with_contents_error_ahead(buf: Seq<u8>, layout: LayoutView, k: int)
    requires
        0 <= k <= layout.sections.len(),
        with_contents(buf, layout, k, 0) is Err,
    ensures
        with_contents(buf, layout, layout.sections.len() as int, 0) == with_contents(
            buf,
            layout,
            k,
            0,
        ),
    decreases
            layout.sections.len() - k,
            1int + (if k < layout.sections.len() {
                layout.sections[k].contributions.len() as int
            } else {
                0
            }),
{
    if k < layout.sections.len() {
        if layout.sections[k].is_bss {
            assert(with_contents(buf, layout, k + 1, 0) == with_contents(buf, layout, k, 0));
            lemma_with_contents_error_ahead(buf, layout, k + 1);
        } else {
            lemma_with_contents_error(buf, layout, k, 0);
        }
    }
}

/// Whether writing the contents stops at the `c`-th contribution of the `k`-th section with an
/// error, and leaves `after` of the buffer.
pub open spec fn contents_stop_at(
    buf: Seq<u8>,
    after: Seq<u8>,
    layout: LayoutView,
    k: int,
    c: int,
    e: LinkError,
) -> bool {
    &&& 0 <= k < layout.sections.len()
    &&& !layout.sections[k].is_bss
    &&& 0 <= c < layout.sections[k].contributions.len()
    &&& with_contents(buf, layout, k, c) is Ok
    &&& contribution_stops(
        with_contents(buf, layout, k, c)->Ok_0,
        after,
        layout,
        layout.sections[k],
        layout.sections[k].contributions[c],
        e,
    )
}

/// Writes the contents of one contribution and applies its relocations.
fn write_contribution(
    buf: &mut [u8],
    layout: &PeLayout,
    section: &OutputSection,
    contribution: &SectionContribution,
) -> (r: Result<(), LinkError>)
    requires
        pe_symbols::is_consistent(layout@),
        pe_grouping::has_section(
            layout@.objects,
            contribution.object_index as int,
            contribution.section_index as int,
        ),
    ensures
        final(buf)@.len() == old(buf)@.len(),
        match r {
            Ok(()) => with_contribution(old(buf)@, layout@, section@, *contribution) == Ok::<
                Seq<u8>,
                LinkError,
            >(final(buf)@),
            Err(e) => contribution_stops(
                old(buf)@,
                final(buf)@,
                layout@,
                section@,
                *contribution,
                e,
            ),
        },
{
    let object = &layout.objects[contribution.object_index];
    assert(layout@.objects[contribution.object_index as int] == object@);
    let input_section = &object.sections[contribution.section_index];
    assert(object@.sections[contribution.section_index as int] == input_section@);
    let wide_offset: u64 = section.file_offset as u64 + contribution.output_offset as u64;
    if wide_offset > usize::MAX as u64 {
        return Err(LinkError::ArithmeticOverflow);
    }
    let out_offset: usize = wide_offset as usize;
    let copy_size: usize = if input_section.data.len() <= contribution.size as usize {
        input_section.data.len()
    } else {
        contribution.size as usize
    };
    let ghost data = contribution_data(layout@, *contribution);
    assert(input_section.data@.take(copy_size as int) =~= data);
    if out_offset > buf.len() || buf.len() - out_offset < copy_size {
        return Err(
            LinkError::SectionOutOfBounds {
                object: contribution.object_index,
                section: contribution.section_index,
            },
        );
    }
    copy_at(buf, out_offset, input_section.data.as_slice(), copy_size);
    apply_relocations(buf, layout, section, contribution, input_section)
}

/// Writes the contents of the sections and applies their relocations, up to the first that fails.
pub fn write_sections(buf: &mut [u8], layout: &PeLayout) -> (r: Result<(), LinkError>)
    requires
        pe_symbols::is_consistent(layout@),
        contributions_exist(layout@),
    ensures
        final(buf)@.len() == old(buf)@.len(),
        match r {
            Ok(()) => with_contents(old(buf)@, layout@, layout@.sections.len() as int, 0) == Ok::<
                Seq<u8>,
                LinkError,
            >(final(buf)@),
            Err(e) => {
                &&& with_contents(old(buf)@, layout@, layout@.sections.len() as int, 0) == Err::<
                    Seq<u8>,
                    LinkError,
                >(e)
                &&& exists|k: int, c: int| #[trigger]
                    contents_stop_at(old(buf)@, final(buf)@, layout@, k, c, e)
            },
        },
{
    let ghost before = buf@;
    let mut k: usize = 0;
    while k < layout.sections.len()
        invariant
            k <= layout.sections@.len(),
            before == old(buf)@,
            buf@.len() == before.len(),
            pe_symbols::is_consistent(layout@),
            contributions_exist(layout@),
            with_contents(before, layout@, k as int, 0) == Ok::<Seq<u8>, LinkError>(buf@),
        decreases layout.sections@.len() - k,
    {
        let section = &layout.sections[k];
        assert(layout@.sections[k as int] == section@);
        if !section.is_bss {
            let mut c: usize = 0;
            while c < section.contributions.len()
                invariant
                    k < layout.sections@.len(),
                    c <= section.contributions@.len(),
                    section == layout.sections@[k as int],
                    layout@.sections[k as int] == section@,
                    !section.is_bss,
                    before == old(buf)@,
                    buf@.len() == before.len(),
                    pe_symbols::is_consistent(layout@),
                    contributions_exist(layout@),
                    with_contents(before, layout@, k as int, c as int) == Ok::<
                        Seq<u8>,
                        LinkError,
                    >(buf@),
                decreases section.contributions@.len() - c,
            {
                assert(layout@.sections[k as int].contributions[c as int]
                    == section.contributions@[c as int]);
                match write_contribution(buf, layout, section, &section.contributions[c]) {
                    Ok(()) => {},
                    Err(e) => {
                        proof {
                            lemma_with_contents_error(before, layout@, k as int, c + 1);
                            assert(contents_stop_at(
                                before,
                                buf@,
                                layout@,
                                k as int,
                                c as int,
                                e,
                            ));
                        }
                        return Err(e);
                    },
                }
                c += 1;
            }
        }
        k += 1;
    }
    Ok(())
}

/// The bytes of the image.
pub open spec fn image(args: PeArgs, layout: LayoutView) -> Result<Seq<u8>, LinkError> {
    match headers_error(layout.file_size as int, layout) {
        Some(e) => Err(e),
        None => with_contents(
            with_headers(zeros(layout.file_size as nat), args, layout),
            layout,
            layout.sections.len() as int,
            0,
        ),
    }
}

/// Returns the bytes of the image.
pub fn write_image(args: &PeArgs, layout: &PeLayout) -> (r: Result<Vec<u8>, LinkError>)
    requires
        pe_symbols::is_consistent(layout@),
        contributions_exist(layout@),
        layout@.file_size <= usize::MAX,
    ensures
        match r {
            Ok(output) => image(*args, layout@) == Ok::<Seq<u8>, LinkError>(output@)
                && output@.len() == layout@.file_size,
            Err(e) => image(*args, layout@) == Err::<Seq<u8>, LinkError>(e),
        },
{
    let mut output: Vec<u8> = vec![0u8; layout.file_size as usize];
    assert(output@ =~= zeros(layout@.file_size as nat));
    match write_headers(&mut output, args, layout) {
        Ok(()) => {},
        Err(e) => return Err(e),
    }
    match write_sections(&mut output, layout) {
        Ok(()) => {},
        Err(e) => return Err(e),
    }
    Ok(output)
}

} // verus!
