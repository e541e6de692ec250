use object::read::pe::{ImageNtHeaders, ImageOptionalHeader, PeFile64};
use object::{LittleEndian as LE, Object, ObjectSection};
use pelink::args::{Architecture, PeArgs, WindowsSubsystem};
use pelink::error::LinkError;
use pelink::input::{
    InputObject, InputRelocation, InputRelocationTarget, InputSection, InputSymbol, SymbolSection,
};
use pelink::pe;
use pelink::pe_layout::{compute_layout, PeLayout};
use pelink::pe_link::{check_architecture, link_objects};
use pelink::pe_symbols::resolve_symbols;
use pelink::pe_writer::{
    checked_headers_size, dll_characteristics, headers_size, subsystem, write_headers,
    write_image, write_sections,
};

const BSS: u32 = 0xC000_0080;
const CODE: u32 = 0x6000_0020;
const DATA: u32 = 0xC000_0040;

fn args() -> PeArgs {
    PeArgs {
        arch: Architecture::X86_64,
        entry: None,
        is_dll: false,
        base_address: None,
        subsystem: None,
        large_address_aware: false,
        high_entropy_va: false,
        dynamic_base: false,
        nx_compat: false,
        terminal_server_aware: false,
        stack_size: None,
        heap_size: None,
    }
}

fn section(index: usize, name: &str, characteristics: u32, data: &[u8]) -> InputSection {
    InputSection {
        index,
        name: name.as_bytes().to_vec(),
        data: data.to_vec(),
        size: data.len() as u32,
        characteristics,
        relocations: Vec::new(),
        output_section: None,
        output_offset: 0,
    }
}

fn defined(name: &str, section: usize, value: u64) -> InputSymbol {
    InputSymbol {
        name: Some(name.to_owned()),
        section: SymbolSection::Section(section),
        value,
        is_undefined: false,
        is_definition: true,
        is_local: false,
    }
}

fn undefined(name: &str) -> InputSymbol {
    InputSymbol {
        name: Some(name.to_owned()),
        section: SymbolSection::Undefined,
        value: 0,
        is_undefined: true,
        is_definition: false,
        is_local: false,
    }
}

fn object(path: &str, sections: Vec<InputSection>, symbols: Vec<InputSymbol>) -> InputObject {
    InputObject { path: path.to_owned(), sections, symbols }
}

fn inputs() -> Vec<InputObject> {
    let mut code = section(1, ".text", CODE, &[0xE8, 0, 0, 0, 0, 0xC3]);
    code.relocations = vec![InputRelocation {
        offset: 1,
        target: InputRelocationTarget::Symbol(1),
        typ: pe::IMAGE_REL_AMD64_REL32,
    }];
    let mut bss = section(3, ".bss", BSS, &[]);
    bss.size = 0x1800;
    vec![
        object(
            "a.obj",
            vec![code, section(2, ".data", DATA, &[1, 2, 3]), bss],
            vec![defined("mainCRTStartup", 1, 0), undefined("helper")],
        ),
        object(
            "b.obj",
            vec![section(1, ".text", CODE, &[0x90, 0xC3])],
            vec![defined("helper", 1, 1)],
        ),
    ]
}

fn link(options: &PeArgs, objects: Vec<InputObject>) -> Result<Vec<u8>, LinkError> {
    link_objects(options, objects).map_err(|failure| failure.error)
}

fn resolved_layout() -> PeLayout {
    let mut layout = compute_layout(&args(), inputs()).ok().unwrap();
    assert_eq!(resolve_symbols(&mut layout), Ok(()));
    layout
}

fn u16_at(buf: &[u8], at: usize) -> u16 {
    u16::from_le_bytes([buf[at], buf[at + 1]])
}

fn u32_at(buf: &[u8], at: usize) -> u32 {
    u32::from_le_bytes([buf[at], buf[at + 1], buf[at + 2], buf[at + 3]])
}

#[test]
fn headers_grow_with_the_sections() {
    assert_eq!(headers_size(0), 328);
    assert_eq!(headers_size(1), 368);
    assert_eq!(headers_size(96), 328 + 96 * 40);
    assert_eq!(checked_headers_size(3), Some(448));
    assert_eq!(checked_headers_size(107_374_174), Some(328 + 107_374_174 * 40));
    assert_eq!(checked_headers_size(107_374_175), None);
}

#[test]
fn subsystems_have_numbers() {
    assert_eq!(subsystem(None), 3);
    assert_eq!(subsystem(Some(WindowsSubsystem::Console)), 3);
    assert_eq!(subsystem(Some(WindowsSubsystem::Windows)), 2);
    assert_eq!(subsystem(Some(WindowsSubsystem::Native)), 1);
    assert_eq!(subsystem(Some(WindowsSubsystem::Posix)), 7);
    assert_eq!(subsystem(Some(WindowsSubsystem::BootApplication)), 16);
    assert_eq!(subsystem(Some(WindowsSubsystem::EfiApplication)), 10);
    assert_eq!(subsystem(Some(WindowsSubsystem::EfiBootServiceDriver)), 11);
    assert_eq!(subsystem(Some(WindowsSubsystem::EfiRom)), 13);
    assert_eq!(subsystem(Some(WindowsSubsystem::EfiRuntimeDriver)), 12);
}

#[test]
fn dll_flags_are_collected() {
    assert_eq!(dll_characteristics(&args()), 0);
    let all = PeArgs {
        high_entropy_va: true,
        dynamic_base: true,
        nx_compat: true,
        terminal_server_aware: true,
        ..args()
    };
    assert_eq!(dll_characteristics(&all), 0x8160);
    let one = PeArgs { nx_compat: true, ..args() };
    assert_eq!(dll_characteristics(&one), 0x0100);
}

#[test]
fn an_image_can_be_read_back() {
    let options = PeArgs {
        large_address_aware: true,
        dynamic_base: true,
        subsystem: Some(WindowsSubsystem::Windows),
        stack_size: Some(0x20_0000),
        ..args()
    };
    let image = link(&options, inputs()).unwrap();
    assert_eq!(image.len(), 0x600);
    let file = PeFile64::parse(image.as_slice()).unwrap();
    let header = file.nt_headers().file_header();
    assert_eq!(header.machine.get(LE), 0x8664);
    assert_eq!(header.number_of_sections.get(LE), 3);
    assert_eq!(header.characteristics.get(LE), 0x0022);
    assert_eq!(header.time_date_stamp.get(LE), 0);
    assert_eq!(header.size_of_optional_header.get(LE), 240);
    let optional = file.nt_headers().optional_header();
    assert_eq!(optional.address_of_entry_point(), 0x1000);
    assert_eq!(optional.image_base(), 0x1_4000_0000);
    assert_eq!(optional.section_alignment(), 0x1000);
    assert_eq!(optional.file_alignment(), 0x200);
    assert_eq!(optional.major_linker_version(), 1);
    assert_eq!(optional.major_operating_system_version(), 6);
    assert_eq!(optional.major_subsystem_version(), 6);
    assert_eq!(optional.size_of_image(), 0x5000);
    assert_eq!(optional.size_of_headers(), 0x200);
    assert_eq!(optional.check_sum(), 0);
    assert_eq!(optional.subsystem(), 2);
    assert_eq!(optional.dll_characteristics(), 0x40);
    assert_eq!(optional.size_of_stack_reserve(), 0x20_0000);
    assert_eq!(optional.size_of_stack_commit(), 0x1000);
    assert_eq!(optional.size_of_heap_reserve(), 0x10_0000);
    assert_eq!(optional.size_of_heap_commit(), 0x1000);
    assert_eq!(optional.number_of_rva_and_sizes(), 16);
    assert_eq!(optional.size_of_code(), 0x200);
    assert_eq!(optional.size_of_initialized_data(), 0x200);
    assert_eq!(optional.size_of_uninitialized_data(), 0x1800);
    assert_eq!(optional.base_of_code(), 0x1000);
    let sections: Vec<(String, u64, u64)> = file
        .sections()
        .map(|s| (s.name().unwrap().to_owned(), s.address(), s.size()))
        .collect();
    assert_eq!(
        sections,
        vec![
            (".text".to_owned(), 0x1_4000_1000, 8),
            (".data".to_owned(), 0x1_4000_2000, 3),
            (".bss".to_owned(), 0x1_4000_3000, 0x1800),
        ]
    );
    for index in 0..16 {
        assert!(file.data_directory(index).is_none());
    }
}

#[test]
fn contents_stand_where_the_layout_puts_them() {
    let image = link(&args(), inputs()).unwrap();
    // The call reaches `helper`, seven bytes into `.text`.
    assert_eq!(image[0x200..0x208], [0xE8, 2, 0, 0, 0, 0xC3, 0x90, 0xC3]);
    assert!(image[0x208..0x400].iter().all(|b| *b == 0));
    assert_eq!(image[0x400..0x403], [1, 2, 3]);
    assert!(image[0x403..].iter().all(|b| *b == 0));
}

#[test]
fn the_writer_leaves_other_header_bytes_alone() {
    let layout = resolved_layout();
    let mut buf = vec![0xAA; 0x200];
    assert_eq!(write_headers(&mut buf, &args(), &layout), Ok(()));
    assert_eq!(buf[..2], [0x4D, 0x5A]);
    assert!(buf[2..60].iter().all(|b| *b == 0xAA));
    assert_eq!(u32_at(&buf, 60), 64);
    assert_eq!(buf[64..68], [0x50, 0x45, 0, 0]);
    // Image version, a reserved field, checksum and loader flags are not set.
    assert_eq!(u32_at(&buf, 132), 0xAAAA_AAAA);
    assert_eq!(u32_at(&buf, 140), 0xAAAA_AAAA);
    assert_eq!(u32_at(&buf, 152), 0xAAAA_AAAA);
    assert_eq!(u32_at(&buf, 192), 0xAAAA_AAAA);
    assert!(buf[200..328].iter().all(|b| *b == 0));
    assert_eq!(buf[328..336], *b".text\0\0\0");
    assert_eq!(u32_at(&buf, 336), 8);
    assert_eq!(u32_at(&buf, 340), 0x1000);
    assert_eq!(u32_at(&buf, 344), 0x200);
    assert_eq!(u32_at(&buf, 348), 0x200);
    assert!(buf[352..364].iter().all(|b| *b == 0));
    assert_eq!(u32_at(&buf, 364), 0x6000_0020);
    // The third section only takes up memory.
    assert_eq!(u32_at(&buf, 328 + 80 + 16), 0);
    assert_eq!(u32_at(&buf, 328 + 80 + 20), 0);
    assert!(buf[448..].iter().all(|b| *b == 0xAA));
}

#[test]
fn headers_need_room() {
    let layout = resolved_layout();
    for (have, need) in [
        (0u64, 64u64),
        (63, 64),
        (64, 68),
        (68, 88),
        (88, 200),
        (200, 328),
        (328, 368),
        (367, 368),
        (368, 408),
        (447, 448),
    ] {
        let mut buf = vec![0u8; have as usize];
        assert_eq!(
            write_headers(&mut buf, &args(), &layout),
            Err(LinkError::HeaderOutOfBounds { need, have })
        );
    }
    assert_eq!(write_headers(&mut [0u8; 448], &args(), &layout), Ok(()));
}

#[test]
fn headers_that_fit_are_written() {
    let layout = resolved_layout();
    let mut full = [0x55u8; 500];
    assert_eq!(write_headers(&mut full, &args(), &layout), Ok(()));
    assert!(full[448..].iter().all(|b| *b == 0x55));
    for (have, end) in
        [(63, 0), (66, 64), (80, 68), (100, 88), (300, 200), (360, 328), (380, 368), (447, 408)]
    {
        let mut buf = vec![0x55u8; have];
        assert!(write_headers(&mut buf, &args(), &layout).is_err());
        assert_eq!(buf[..end], full[..end]);
        assert!(buf[end..].iter().all(|b| *b == 0x55));
    }
}

#[test]
fn sums_over_the_sections_can_overflow() {
    let mut layout = resolved_layout();
    layout.sections[0].raw_data_size = 0xFFFF_FFFF;
    layout.sections[1].raw_data_size = 1;
    assert_eq!(write_headers(&mut [0u8; 512], &args(), &layout), Ok(()));
    layout.sections[1].characteristics = CODE;
    assert_eq!(
        write_headers(&mut [0u8; 512], &args(), &layout),
        Err(LinkError::ArithmeticOverflow)
    );
    assert_eq!(
        write_headers(&mut [0u8; 200], &args(), &layout),
        Err(LinkError::ArithmeticOverflow)
    );
    assert_eq!(
        write_headers(&mut [0u8; 199], &args(), &layout),
        Err(LinkError::HeaderOutOfBounds { need: 200, have: 199 })
    );
}

#[test]
fn contents_need_room() {
    let layout = resolved_layout();
    assert_eq!(
        write_sections(&mut [0u8; 0x402], &layout),
        Err(LinkError::SectionOutOfBounds { object: 0, section: 1 })
    );
    assert_eq!(write_sections(&mut [0u8; 0x403], &layout), Ok(()));
    assert_eq!(
        write_sections(&mut [0u8; 0x100], &layout),
        Err(LinkError::SectionOutOfBounds { object: 0, section: 0 })
    );
}

#[test]
fn contents_in_front_of_a_failure_are_written() {
    let layout = resolved_layout();
    let mut full = [0x55u8; 0x403];
    assert_eq!(write_sections(&mut full, &layout), Ok(()));
    let mut buf = [0x55u8; 0x402];
    assert!(write_sections(&mut buf, &layout).is_err());
    assert_eq!(buf[..0x400], full[..0x400]);
    assert!(buf[0x200..0x210] != [0x55; 16]);
    assert_eq!(buf[0x400..], [0x55, 0x55]);
    assert_ne!(full[0x400], 0x55);
}

#[test]
fn bytes_outside_of_contents_and_fields_are_zero() {
    let image = link(&args(), inputs()).unwrap();
    let layout = resolved_layout();
    for section in &layout.sections {
        if section.is_bss {
            continue;
        }
        let start = section.file_offset as usize;
        let end = start + section.raw_data_size as usize;
        for at in start..end {
            let part = section.contributions.iter().find(|c| {
                let from = start + c.output_offset as usize;
                from <= at && at < from + c.size as usize
            });
            let Some(part) = part else {
                assert_eq!(image[at], 0);
                continue;
            };
            let source = &layout.objects[part.object_index].sections[part.section_index];
            let i = at - start - part.output_offset as usize;
            let in_field = source.relocations.iter().any(|r| {
                let from = r.offset as usize;
                from <= i && i < from + 8
            });
            if !in_field {
                assert_eq!(image[at], source.data.get(i).copied().unwrap_or(0));
            }
        }
    }
    assert!(image[448..0x200].iter().all(|b| *b == 0));
}

#[test]
fn an_image_is_as_long_as_its_layout_says() {
    let layout = resolved_layout();
    let image = write_image(&args(), &layout).unwrap();
    assert_eq!(image.len() as u64, layout.file_size);
    assert_eq!(u16_at(&image, 70) as usize, layout.sections.len());
    assert_eq!(u32_at(&image, 104), 0);
}

#[test]
fn dlls_are_marked() {
    let mut objects = inputs();
    objects[0].symbols[0] = defined("_DllMainCRTStartup", 1, 0);
    let options = PeArgs { is_dll: true, ..args() };
    let image = link(&options, objects).unwrap();
    assert_eq!(u16_at(&image, 86), 0x2002);
}

#[test]
fn only_one_architecture_is_linked() {
    assert_eq!(check_architecture(&args()), Ok(()));
    for arch in [Architecture::AArch64, Architecture::RiscV64, Architecture::LoongArch64] {
        let other = PeArgs { arch, ..args() };
        assert_eq!(check_architecture(&other), Err(LinkError::UnsupportedArchitecture));
    }
}

#[test]
fn nothing_cannot_be_linked() {
    assert_eq!(link(&args(), Vec::new()), Err(LinkError::NoInputs));
}

#[test]
fn a_link_fails_with_the_first_error() {
    let mut bad_layout = inputs();
    bad_layout[0].sections[1].size = 0xFFFF_FF80;
    let failure = link_objects(&args(), bad_layout).err().unwrap();
    assert_eq!(failure.error, LinkError::ArithmeticOverflow);
    assert!(failure.layout.is_none());

    let mut duplicate = inputs();
    duplicate[1].symbols.push(defined("mainCRTStartup", 1, 0));
    let failure = link_objects(&args(), duplicate).err().unwrap();
    assert_eq!(
        failure.error,
        LinkError::DuplicateSymbol { previous_object: 0, object: 1, symbol: 1 }
    );
    assert_eq!(failure.layout.unwrap().objects[1].path, "b.obj");

    let mut no_entry = inputs();
    no_entry[0].symbols[0] = defined("start", 1, 0);
    assert_eq!(link(&args(), no_entry), Err(LinkError::EntryPointNotFound));

    let mut unresolved = inputs();
    unresolved.pop();
    assert_eq!(
        link(&args(), unresolved),
        Err(LinkError::UnresolvedSymbol { object: 0, symbol: 1 })
    );
}

#[test]
fn relocations_outside_of_a_section_do_not_reach_the_headers() {
    let mut objects = inputs();
    objects[0].sections[0].relocations[0].offset = 0x3F0;
    let image = link(&args(), objects).unwrap();
    let headers = link(&args(), inputs()).unwrap();
    assert_eq!(image[..0x200], headers[..0x200]);
    assert_ne!(image[0x5F0..0x5F4], [0, 0, 0, 0]);
}

#[test]
fn a_link_from_coff_objects_gives_the_same_image() {
    let mut writer = object::write::Object::new(
        object::BinaryFormat::Coff,
        object::Architecture::X86_64,
        object::Endianness::Little,
    );
    let text = writer.section_id(object::write::StandardSection::Text);
    writer.append_section_data(text, &[0xC3], 1);
    writer.add_symbol(object::write::Symbol {
        name: b"mainCRTStartup".to_vec(),
        value: 0,
        size: 1,
        kind: object::SymbolKind::Text,
        scope: object::SymbolScope::Linkage,
        weak: false,
        section: object::write::SymbolSection::Section(text),
        flags: object::SymbolFlags::None,
    });
    let data = writer.write().unwrap();
    let parsed = pelink::pe_object::parse_input_object("m.obj".to_owned(), &data).unwrap();
    let image = link(&args(), vec![parsed]).unwrap();
    assert_eq!(image[0x200], 0xC3);
    assert_eq!(u32_at(&image, 104), 0x1000);
}
