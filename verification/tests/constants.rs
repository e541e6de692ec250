use pelink::pe;
use std::mem::size_of;

#[test]
fn signatures_match_the_format() {
    assert_eq!(pe::IMAGE_FILE_MACHINE_AMD64, object::pe::IMAGE_FILE_MACHINE_AMD64);
    assert_eq!(pe::IMAGE_DOS_SIGNATURE, object::pe::IMAGE_DOS_SIGNATURE);
    assert_eq!(pe::IMAGE_NT_SIGNATURE, object::pe::IMAGE_NT_SIGNATURE);
    assert_eq!(pe::IMAGE_NT_OPTIONAL_HDR64_MAGIC, object::pe::IMAGE_NT_OPTIONAL_HDR64_MAGIC);
    assert_eq!(
        pe::IMAGE_NUMBEROF_DIRECTORY_ENTRIES as usize,
        object::pe::IMAGE_NUMBEROF_DIRECTORY_ENTRIES
    );
}

#[test]
fn characteristics_match_the_format() {
    assert_eq!(pe::IMAGE_FILE_RELOCS_STRIPPED, object::pe::IMAGE_FILE_RELOCS_STRIPPED);
    assert_eq!(pe::IMAGE_FILE_EXECUTABLE_IMAGE, object::pe::IMAGE_FILE_EXECUTABLE_IMAGE);
    assert_eq!(pe::IMAGE_FILE_LARGE_ADDRESS_AWARE, object::pe::IMAGE_FILE_LARGE_ADDRESS_AWARE);
    assert_eq!(pe::IMAGE_FILE_DLL, object::pe::IMAGE_FILE_DLL);
    assert_eq!(pe::IMAGE_SCN_CNT_CODE, object::pe::IMAGE_SCN_CNT_CODE);
    assert_eq!(pe::IMAGE_SCN_CNT_INITIALIZED_DATA, object::pe::IMAGE_SCN_CNT_INITIALIZED_DATA);
    assert_eq!(pe::IMAGE_SCN_CNT_UNINITIALIZED_DATA, object::pe::IMAGE_SCN_CNT_UNINITIALIZED_DATA);
    assert_eq!(pe::IMAGE_SCN_MEM_DISCARDABLE, object::pe::IMAGE_SCN_MEM_DISCARDABLE);
    assert_eq!(pe::IMAGE_SCN_MEM_EXECUTE, object::pe::IMAGE_SCN_MEM_EXECUTE);
    assert_eq!(pe::IMAGE_SCN_MEM_READ, object::pe::IMAGE_SCN_MEM_READ);
    assert_eq!(pe::IMAGE_SCN_MEM_WRITE, object::pe::IMAGE_SCN_MEM_WRITE);
}

#[test]
fn merged_flags_are_contents_and_access() {
    assert_eq!(
        pelink::pe_section::MERGED_CHARACTERISTICS,
        object::pe::IMAGE_SCN_CNT_CODE
            | object::pe::IMAGE_SCN_CNT_INITIALIZED_DATA
            | object::pe::IMAGE_SCN_CNT_UNINITIALIZED_DATA
            | object::pe::IMAGE_SCN_MEM_EXECUTE
            | object::pe::IMAGE_SCN_MEM_READ
            | object::pe::IMAGE_SCN_MEM_WRITE
    );
}

#[test]
fn subsystems_match_the_format() {
    assert_eq!(pe::IMAGE_SUBSYSTEM_NATIVE, object::pe::IMAGE_SUBSYSTEM_NATIVE);
    assert_eq!(pe::IMAGE_SUBSYSTEM_WINDOWS_GUI, object::pe::IMAGE_SUBSYSTEM_WINDOWS_GUI);
    assert_eq!(pe::IMAGE_SUBSYSTEM_WINDOWS_CUI, object::pe::IMAGE_SUBSYSTEM_WINDOWS_CUI);
    assert_eq!(pe::IMAGE_SUBSYSTEM_POSIX_CUI, object::pe::IMAGE_SUBSYSTEM_POSIX_CUI);
    assert_eq!(pe::IMAGE_SUBSYSTEM_EFI_APPLICATION, object::pe::IMAGE_SUBSYSTEM_EFI_APPLICATION);
    assert_eq!(
        pe::IMAGE_SUBSYSTEM_EFI_BOOT_SERVICE_DRIVER,
        object::pe::IMAGE_SUBSYSTEM_EFI_BOOT_SERVICE_DRIVER
    );
    assert_eq!(
        pe::IMAGE_SUBSYSTEM_EFI_RUNTIME_DRIVER,
        object::pe::IMAGE_SUBSYSTEM_EFI_RUNTIME_DRIVER
    );
    assert_eq!(pe::IMAGE_SUBSYSTEM_EFI_ROM, object::pe::IMAGE_SUBSYSTEM_EFI_ROM);
    assert_eq!(
        pe::IMAGE_SUBSYSTEM_WINDOWS_BOOT_APPLICATION,
        object::pe::IMAGE_SUBSYSTEM_WINDOWS_BOOT_APPLICATION
    );
}

#[test]
fn dll_characteristics_match_the_format() {
    assert_eq!(
        pe::IMAGE_DLLCHARACTERISTICS_HIGH_ENTROPY_VA,
        object::pe::IMAGE_DLLCHARACTERISTICS_HIGH_ENTROPY_VA
    );
    assert_eq!(
        pe::IMAGE_DLLCHARACTERISTICS_DYNAMIC_BASE,
        object::pe::IMAGE_DLLCHARACTERISTICS_DYNAMIC_BASE
    );
    assert_eq!(
        pe::IMAGE_DLLCHARACTERISTICS_NX_COMPAT,
        object::pe::IMAGE_DLLCHARACTERISTICS_NX_COMPAT
    );
    assert_eq!(
        pe::IMAGE_DLLCHARACTERISTICS_TERMINAL_SERVER_AWARE,
        object::pe::IMAGE_DLLCHARACTERISTICS_TERMINAL_SERVER_AWARE
    );
}

#[test]
fn relocation_types_match_the_format() {
    assert_eq!(pe::IMAGE_REL_AMD64_ABSOLUTE, object::pe::IMAGE_REL_AMD64_ABSOLUTE);
    assert_eq!(pe::IMAGE_REL_AMD64_ADDR64, object::pe::IMAGE_REL_AMD64_ADDR64);
    assert_eq!(pe::IMAGE_REL_AMD64_ADDR32, object::pe::IMAGE_REL_AMD64_ADDR32);
    assert_eq!(pe::IMAGE_REL_AMD64_ADDR32NB, object::pe::IMAGE_REL_AMD64_ADDR32NB);
    assert_eq!(pe::IMAGE_REL_AMD64_REL32, object::pe::IMAGE_REL_AMD64_REL32);
    assert_eq!(pe::IMAGE_REL_AMD64_REL32_1, object::pe::IMAGE_REL_AMD64_REL32_1);
    assert_eq!(pe::IMAGE_REL_AMD64_REL32_2, object::pe::IMAGE_REL_AMD64_REL32_2);
    assert_eq!(pe::IMAGE_REL_AMD64_REL32_3, object::pe::IMAGE_REL_AMD64_REL32_3);
    assert_eq!(pe::IMAGE_REL_AMD64_REL32_4, object::pe::IMAGE_REL_AMD64_REL32_4);
    assert_eq!(pe::IMAGE_REL_AMD64_REL32_5, object::pe::IMAGE_REL_AMD64_REL32_5);
    assert_eq!(pe::IMAGE_REL_AMD64_SECTION, object::pe::IMAGE_REL_AMD64_SECTION);
    assert_eq!(pe::IMAGE_REL_AMD64_SECREL, object::pe::IMAGE_REL_AMD64_SECREL);
    assert_eq!(pe::IMAGE_REL_BASED_ABSOLUTE, object::pe::IMAGE_REL_BASED_ABSOLUTE);
    assert_eq!(pe::IMAGE_REL_BASED_HIGH, object::pe::IMAGE_REL_BASED_HIGH);
    assert_eq!(pe::IMAGE_REL_BASED_LOW, object::pe::IMAGE_REL_BASED_LOW);
    assert_eq!(pe::IMAGE_REL_BASED_HIGHLOW, object::pe::IMAGE_REL_BASED_HIGHLOW);
    assert_eq!(pe::IMAGE_REL_BASED_HIGHADJ, object::pe::IMAGE_REL_BASED_HIGHADJ);
    assert_eq!(pe::IMAGE_REL_BASED_DIR64, object::pe::IMAGE_REL_BASED_DIR64);
}

#[test]
fn header_sizes_match_the_format() {
    assert_eq!(pe::DOS_HEADER_SIZE as usize, size_of::<object::pe::ImageDosHeader>());
    assert_eq!(pe::COFF_HEADER_SIZE as usize, size_of::<object::pe::ImageFileHeader>());
    assert_eq!(
        pe::OPTIONAL_HEADER_BASE_SIZE as usize,
        size_of::<object::pe::ImageOptionalHeader64>()
    );
    assert_eq!(
        pe::DATA_DIRS_SIZE as usize,
        object::pe::IMAGE_NUMBEROF_DIRECTORY_ENTRIES * size_of::<object::pe::ImageDataDirectory>()
    );
    assert_eq!(pe::OPTIONAL_HEADER_SIZE, pe::OPTIONAL_HEADER_BASE_SIZE + pe::DATA_DIRS_SIZE);
    assert_eq!(pe::SECTION_HEADER_SIZE as usize, size_of::<object::pe::ImageSectionHeader>());
}

#[test]
fn named_directories_come_in_the_order_of_the_format() {
    let indices = [
        object::pe::IMAGE_DIRECTORY_ENTRY_EXPORT,
        object::pe::IMAGE_DIRECTORY_ENTRY_IMPORT,
        object::pe::IMAGE_DIRECTORY_ENTRY_RESOURCE,
        object::pe::IMAGE_DIRECTORY_ENTRY_EXCEPTION,
        object::pe::IMAGE_DIRECTORY_ENTRY_SECURITY,
        object::pe::IMAGE_DIRECTORY_ENTRY_BASERELOC,
        object::pe::IMAGE_DIRECTORY_ENTRY_DEBUG,
        object::pe::IMAGE_DIRECTORY_ENTRY_ARCHITECTURE,
        object::pe::IMAGE_DIRECTORY_ENTRY_GLOBALPTR,
        object::pe::IMAGE_DIRECTORY_ENTRY_TLS,
        object::pe::IMAGE_DIRECTORY_ENTRY_LOAD_CONFIG,
        object::pe::IMAGE_DIRECTORY_ENTRY_BOUND_IMPORT,
        object::pe::IMAGE_DIRECTORY_ENTRY_IAT,
        object::pe::IMAGE_DIRECTORY_ENTRY_DELAY_IMPORT,
        object::pe::IMAGE_DIRECTORY_ENTRY_COM_DESCRIPTOR,
    ];
    let names = [
        "export", "import", "resource", "exception", "security", "basereloc", "debug",
        "architecture", "globalptr", "tls", "load-config", "bound-import", "iat", "delay-import",
        "com-descriptor",
    ];
    assert_eq!(indices.len(), pe::NAMED_DIRECTORIES);
    for (place, index) in indices.iter().enumerate() {
        assert_eq!(*index, place);
        assert_eq!(pelink::pe_diff::directory_name(place), names[place]);
    }
}
