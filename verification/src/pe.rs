//! Numbers of the PE/COFF format that the linker reads and writes.
use vstd::prelude::*;

verus! {

/// `Machine` of an x86-64 image.
pub const IMAGE_FILE_MACHINE_AMD64: u16 = 0x8664;

/// First two bytes of a DOS header, `MZ`.
pub const IMAGE_DOS_SIGNATURE: u16 = 0x5A4D;

/// Signature in front of the COFF header, `PE\0\0`.
pub const IMAGE_NT_SIGNATURE: u32 = 0x0000_4550;

/// `Magic` of a 64-bit optional header.
pub const IMAGE_NT_OPTIONAL_HDR64_MAGIC: u16 = 0x20b;

/// Number of data directories behind the optional header.
pub const IMAGE_NUMBEROF_DIRECTORY_ENTRIES: u32 = 16;

/// File characteristic: base relocations were removed.
pub const IMAGE_FILE_RELOCS_STRIPPED: u16 = 0x0001;

/// File characteristic: the image can be run.
pub const IMAGE_FILE_EXECUTABLE_IMAGE: u16 = 0x0002;

/// File characteristic: the image copes with addresses above 2 GiB.
pub const IMAGE_FILE_LARGE_ADDRESS_AWARE: u16 = 0x0020;

/// File characteristic: the image is a dynamic-link library.
pub const IMAGE_FILE_DLL: u16 = 0x2000;

/// Section flag: contains code.
pub const IMAGE_SCN_CNT_CODE: u32 = 0x0000_0020;

/// Section flag: contains initialised data.
pub const IMAGE_SCN_CNT_INITIALIZED_DATA: u32 = 0x0000_0040;

/// Section flag: contains uninitialised data.
pub const IMAGE_SCN_CNT_UNINITIALIZED_DATA: u32 = 0x0000_0080;

/// Section flag: can be discarded.
pub const IMAGE_SCN_MEM_DISCARDABLE: u32 = 0x0200_0000;

/// Section flag: can be executed.
pub const IMAGE_SCN_MEM_EXECUTE: u32 = 0x2000_0000;

/// Section flag: can be read.
pub const IMAGE_SCN_MEM_READ: u32 = 0x4000_0000;

/// Section flag: can be written.
pub const IMAGE_SCN_MEM_WRITE: u32 = 0x8000_0000;

/// Subsystem: no subsystem needed.
pub const IMAGE_SUBSYSTEM_NATIVE: u16 = 1;

/// Subsystem: graphical Windows program.
pub const IMAGE_SUBSYSTEM_WINDOWS_GUI: u16 = 2;

/// Subsystem: Windows console program.
pub const IMAGE_SUBSYSTEM_WINDOWS_CUI: u16 = 3;

/// Subsystem: POSIX console program.
pub const IMAGE_SUBSYSTEM_POSIX_CUI: u16 = 7;

/// Subsystem: EFI application.
pub const IMAGE_SUBSYSTEM_EFI_APPLICATION: u16 = 10;

/// Subsystem: EFI boot service driver.
pub const IMAGE_SUBSYSTEM_EFI_BOOT_SERVICE_DRIVER: u16 = 11;

/// Subsystem: EFI runtime driver.
pub const IMAGE_SUBSYSTEM_EFI_RUNTIME_DRIVER: u16 = 12;

/// Subsystem: EFI ROM image.
pub const IMAGE_SUBSYSTEM_EFI_ROM: u16 = 13;

/// Subsystem: Windows boot application.
pub const IMAGE_SUBSYSTEM_WINDOWS_BOOT_APPLICATION: u16 = 16;

/// DLL characteristic: 64-bit address space randomisation.
pub const IMAGE_DLLCHARACTERISTICS_HIGH_ENTROPY_VA: u16 = 0x0020;

/// DLL characteristic: the image can move.
pub const IMAGE_DLLCHARACTERISTICS_DYNAMIC_BASE: u16 = 0x0040;

/// DLL characteristic: works with data execution prevention.
pub const IMAGE_DLLCHARACTERISTICS_NX_COMPAT: u16 = 0x0100;

/// DLL characteristic: aware of terminal servers.
pub const IMAGE_DLLCHARACTERISTICS_TERMINAL_SERVER_AWARE: u16 = 0x8000;

/// Relocation that changes nothing.
pub const IMAGE_REL_AMD64_ABSOLUTE: u16 = 0x0000;

/// Relocation: 64-bit address.
pub const IMAGE_REL_AMD64_ADDR64: u16 = 0x0001;

/// Relocation: 32-bit address.
pub const IMAGE_REL_AMD64_ADDR32: u16 = 0x0002;

/// Relocation: 32-bit address relative to the image base.
pub const IMAGE_REL_AMD64_ADDR32NB: u16 = 0x0003;

/// Relocation: 32-bit address relative to the byte behind the field.
pub const IMAGE_REL_AMD64_REL32: u16 = 0x0004;

/// Relocation: as `REL32`, with one byte between the field and the next instruction.
pub const IMAGE_REL_AMD64_REL32_1: u16 = 0x0005;

/// Relocation: as `REL32`, with two bytes in between.
pub const IMAGE_REL_AMD64_REL32_2: u16 = 0x0006;

/// Relocation: as `REL32`, with three bytes in between.
pub const IMAGE_REL_AMD64_REL32_3: u16 = 0x0007;

/// Relocation: as `REL32`, with four bytes in between.
pub const IMAGE_REL_AMD64_REL32_4: u16 = 0x0008;

/// Relocation: as `REL32`, with five bytes in between.
pub const IMAGE_REL_AMD64_REL32_5: u16 = 0x0009;

/// Relocation: number of the target's section.
pub const IMAGE_REL_AMD64_SECTION: u16 = 0x000A;

/// Relocation: offset of the target in its section.
pub const IMAGE_REL_AMD64_SECREL: u16 = 0x000B;

/// Base relocation that only pads a block.
pub const IMAGE_REL_BASED_ABSOLUTE: u16 = 0;

/// Base relocation: high half of an address.
pub const IMAGE_REL_BASED_HIGH: u16 = 1;

/// Base relocation: low half of an address.
pub const IMAGE_REL_BASED_LOW: u16 = 2;

/// Base relocation: 32-bit address.
pub const IMAGE_REL_BASED_HIGHLOW: u16 = 3;

/// Base relocation: adjusted high half of an address.
pub const IMAGE_REL_BASED_HIGHADJ: u16 = 4;

/// Base relocation: 64-bit address.
pub const IMAGE_REL_BASED_DIR64: u16 = 10;

/// Number of data directories that have a name.
pub const NAMED_DIRECTORIES: usize = 15;

/// Size of the DOS header.
pub const DOS_HEADER_SIZE: u32 = 64;

/// Size of the signature in front of the COFF header.
pub const PE_SIGNATURE_SIZE: u32 = 4;

/// Size of the COFF header.
pub const COFF_HEADER_SIZE: u32 = 20;

/// Size of the 64-bit optional header without its data directories.
pub const OPTIONAL_HEADER_BASE_SIZE: u32 = 112;

/// Size of the data directories.
pub const DATA_DIRS_SIZE: u32 = 128;

/// Size of the optional header with its data directories.
pub const OPTIONAL_HEADER_SIZE: u32 = 240;

/// Size of one section header.
pub const SECTION_HEADER_SIZE: u32 = 40;

} // verus!
