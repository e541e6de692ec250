use pelink::args::{Architecture, PeArgs};
use pelink::error::LinkError;
use pelink::input::{InputObject, InputSection, InputSymbol, SymbolSection};
use pelink::pe_grouping::{place_section, remap_output_section_indices};
use pelink::pe_layout::{compute_layout, PeLayout};

const CODE: u32 = 0x6000_0020;
const RDATA: u32 = 0x4000_0040;
const DATA: u32 = 0xC000_0040;
const BSS: u32 = 0xC000_0080;

fn args() -> PeArgs {
    PeArgs {
        arch: Architecture::X86_64,
        entry: None,
        is_dll: false,
        base_address: None,
        subsystem: None,
        large_address_aware: false,
        high_entropy_va: false,
        dynamic_base: false,
        nx_compat: false,
        terminal_server_aware: false,
        stack_size: None,
        heap_size: None,
    }
}

fn section(index: usize, name: &str, characteristics: u32, data: &[u8], size: u32) -> InputSection {
    InputSection {
        index,
        name: name.as_bytes().to_vec(),
        data: data.to_vec(),
        size,
        characteristics,
        relocations: Vec::new(),
        output_section: None,
        output_offset: 0,
    }
}

fn object(path: &str, sections: Vec<InputSection>) -> InputObject {
    InputObject { path: path.to_owned(), sections, symbols: Vec::new() }
}

fn lay_out(objects: Vec<InputObject>) -> Result<PeLayout, LinkError> {
    compute_layout(&args(), objects)
}

fn failure(objects: Vec<InputObject>) -> LinkError {
    match lay_out(objects) {
        Ok(_) => panic!("the layout should fail"),
        Err(e) => e,
    }
}

fn two_objects() -> Vec<InputObject> {
    vec![
        object(
            "a.obj",
            vec![
                section(1, ".data", DATA | 0x0040_0000, &[1, 2, 3], 3),
                section(2, ".text$mn", CODE | 0x0050_0000, &[0x90; 5], 5),
                section(3, ".bss", BSS, &[], 0x20),
                section(4, ".debug", 0x4200_0040, &[9; 8], 8),
                section(5, ".empty", DATA, &[], 0),
                section(6, ".drectve", 0x0010_0A00, &[9; 4], 4),
            ],
        ),
        object(
            "b.obj",
            vec![
                section(1, ".text", CODE | 0x0050_0000, &[0xCC; 7], 7),
                section(2, ".data$z", DATA | 0x0040_0000, &[4, 5], 2),
                section(3, ".custom", RDATA, &[7], 0x300),
            ],
        ),
    ]
}

#[test]
fn sections_are_grouped_sorted_and_placed() {
    let layout = lay_out(two_objects()).ok().unwrap();
    assert_eq!(layout.image_base, 0x1_4000_0000);
    assert_eq!(layout.machine, 0x8664);
    assert_eq!(layout.entry_point_rva, 0);
    let names: Vec<[u8; 8]> = layout.sections.iter().map(|s| s.name).collect();
    assert_eq!(
        names,
        vec![*b".text\0\0\0", *b".data\0\0\0", *b".bss\0\0\0\0", *b".custom\0"]
    );
    // 328 bytes of fixed headers and four section headers.
    assert_eq!(layout.size_of_headers, 0x200);
    let text = &layout.sections[0];
    assert_eq!(text.virtual_address, 0x1000);
    assert_eq!(text.virtual_size, 16 + 7);
    assert_eq!(text.file_offset, 0x200);
    assert_eq!(text.raw_data_size, 0x200);
    assert_eq!(text.characteristics, CODE);
    let data = &layout.sections[1];
    assert_eq!(data.virtual_address, 0x2000);
    assert_eq!(data.virtual_size, 8 + 2);
    assert_eq!(data.file_offset, 0x400);
    assert_eq!(data.raw_data_size, 0x200);
    let bss = &layout.sections[2];
    assert!(bss.is_bss);
    assert_eq!(bss.virtual_address, 0x3000);
    assert_eq!(bss.virtual_size, 0x20);
    assert_eq!(bss.file_offset, 0);
    assert_eq!(bss.raw_data_size, 0);
    let custom = &layout.sections[3];
    assert_eq!(custom.virtual_address, 0x4000);
    assert_eq!(custom.virtual_size, 0x300);
    assert_eq!(custom.file_offset, 0x600);
    assert_eq!(custom.raw_data_size, 0x400);
    assert_eq!(layout.size_of_image, 0x5000);
    assert_eq!(layout.file_size, 0xA00);
}

#[test]
fn kept_sections_know_their_one_place() {
    let layout = lay_out(two_objects()).ok().unwrap();
    let places: Vec<Vec<(Option<usize>, u32)>> = layout
        .objects
        .iter()
        .map(|o| o.sections.iter().map(|s| (s.output_section, s.output_offset)).collect())
        .collect();
    assert_eq!(
        places[0],
        vec![(Some(1), 0), (Some(0), 0), (Some(2), 0), (None, 0), (None, 0), (None, 0)]
    );
    assert_eq!(places[1], vec![(Some(0), 16), (Some(1), 8), (Some(3), 0)]);
    let parts: Vec<(usize, usize, u32, u32)> = layout.sections[0]
        .contributions
        .iter()
        .map(|c| (c.object_index, c.section_index, c.output_offset, c.size))
        .collect();
    assert_eq!(parts, vec![(0, 1, 0, 5), (1, 0, 16, 7)]);
    let mut seen = 0;
    for section in &layout.sections {
        seen += section.contributions.len();
    }
    assert_eq!(seen, 6);
}

#[test]
fn sections_and_parts_do_not_overlap() {
    let layout = lay_out(two_objects()).ok().unwrap();
    for pair in layout.sections.windows(2) {
        assert!(pair[0].virtual_address + pair[0].virtual_size <= pair[1].virtual_address);
    }
    let files: Vec<&pelink::pe_section::OutputSection> =
        layout.sections.iter().filter(|s| !s.is_bss).collect();
    for pair in files.windows(2) {
        assert!(pair[0].file_offset + pair[0].raw_data_size <= pair[1].file_offset);
    }
    for section in &layout.sections {
        assert_eq!(section.virtual_address % 0x1000, 0);
        assert_eq!(section.file_offset % 0x200, 0);
        for pair in section.contributions.windows(2) {
            assert!(pair[0].output_offset + pair[0].size <= pair[1].output_offset);
        }
    }
}

#[test]
fn sections_of_one_name_but_other_flags_stay_apart() {
    let layout = lay_out(vec![object(
        "a.obj",
        vec![
            section(1, ".x", RDATA, &[1], 1),
            section(2, ".x", DATA, &[2], 1),
            section(3, ".x", RDATA, &[3], 1),
        ],
    )])
    .ok()
    .unwrap();
    assert_eq!(layout.sections.len(), 2);
    assert_eq!(layout.sections[0].characteristics, RDATA);
    assert_eq!(layout.sections[0].contributions.len(), 2);
    assert_eq!(layout.sections[1].characteristics, DATA);
}

#[test]
fn unknown_sections_keep_the_order_of_their_first_input() {
    let layout = lay_out(vec![object(
        "a.obj",
        vec![
            section(1, ".z", RDATA, &[1], 1),
            section(2, ".a", RDATA, &[2], 1),
            section(3, ".text", CODE, &[3], 1),
            section(4, ".m", RDATA, &[4], 1),
        ],
    )])
    .ok()
    .unwrap();
    let names: Vec<[u8; 8]> = layout.sections.iter().map(|s| s.name).collect();
    assert_eq!(
        names,
        vec![*b".text\0\0\0", *b".z\0\0\0\0\0\0", *b".a\0\0\0\0\0\0", *b".m\0\0\0\0\0\0"]
    );
}

#[test]
fn size_is_the_larger_of_size_and_data() {
    let layout = lay_out(vec![object(
        "a.obj",
        vec![section(1, ".a", DATA, &[1, 2, 3, 4], 2), section(2, ".b", DATA, &[1], 9)],
    )])
    .ok()
    .unwrap();
    assert_eq!(layout.sections[0].virtual_size, 4);
    assert_eq!(layout.sections[1].virtual_size, 9);
}

#[test]
fn base_address_is_taken_over() {
    let mut options = args();
    options.base_address = Some(0x7000_0000);
    let layout = compute_layout(&options, vec![object("a", vec![section(1, ".a", DATA, &[1], 1)])]);
    assert_eq!(layout.ok().unwrap().image_base, 0x7000_0000);
}

#[test]
fn no_sections_give_headers_only() {
    let layout = lay_out(vec![object("a.obj", Vec::new())]).ok().unwrap();
    assert_eq!(layout.sections.len(), 0);
    assert_eq!(layout.size_of_headers, 0x200);
    assert_eq!(layout.size_of_image, 0x1000);
    assert_eq!(layout.file_size, 0x200);
}

#[test]
fn symbols_have_no_addresses_yet() {
    let symbol = InputSymbol {
        name: Some("f".to_owned()),
        section: SymbolSection::Section(1),
        value: 0,
        is_undefined: false,
        is_definition: true,
        is_local: false,
    };
    let mut input = object("a.obj", vec![section(1, ".text", CODE, &[0xC3], 1)]);
    input.symbols = vec![symbol, InputSymbol::placeholder()];
    let layout = lay_out(vec![input, object("b.obj", Vec::new())]).ok().unwrap();
    assert_eq!(layout.symbol_addresses, vec![vec![None, None], vec![]]);
    assert!(layout.global_definitions.get("f").is_none());
}

#[test]
fn many_sections_need_more_headers() {
    let sections: Vec<InputSection> =
        (0..6).map(|i| section(i + 1, &format!(".s{i}"), DATA, &[1], 1)).collect();
    let layout = lay_out(vec![object("a.obj", sections)]).ok().unwrap();
    // 328 + 6 * 40 = 568 bytes.
    assert_eq!(layout.size_of_headers, 0x400);
    assert_eq!(layout.sections[0].file_offset, 0x400);
}

#[test]
fn contents_of_one_section_can_overflow() {
    let sections = vec![
        section(1, ".bss", BSS, &[], 0xFFFF_FF00),
        section(2, ".bss", BSS, &[], 0x200),
    ];
    assert_eq!(failure(vec![object("a.obj", sections)]), LinkError::SectionSizeOverflow);
}

#[test]
fn alignment_of_one_section_can_overflow() {
    let sections = vec![
        section(1, ".bss", BSS, &[], 0xFFFF_FFF0),
        section(2, ".bss", BSS | 0x00E0_0000, &[], 1),
    ];
    assert_eq!(failure(vec![object("a.obj", sections)]), LinkError::ArithmeticOverflow);
}

#[test]
fn the_file_can_overflow() {
    let sections = vec![
        section(1, ".a", DATA, &[], 0x8000_0000),
        section(2, ".b", DATA, &[], 0x8000_0000),
    ];
    assert_eq!(failure(vec![object("a.obj", sections)]), LinkError::FileSizeOverflow);
}

#[test]
fn the_image_can_overflow() {
    let sections = vec![
        section(1, ".a", BSS, &[], 0x8000_0000),
        section(2, ".b", BSS, &[], 0x8000_0000),
    ];
    assert_eq!(failure(vec![object("a.obj", sections)]), LinkError::ImageSizeOverflow);
}

#[test]
fn rounding_can_overflow() {
    let raw = vec![section(1, ".a", DATA, &[], 0xFFFF_FF00)];
    assert_eq!(failure(vec![object("a.obj", raw)]), LinkError::ArithmeticOverflow);
    let memory = vec![section(1, ".a", BSS, &[], 0xFFFF_E000)];
    assert_eq!(failure(vec![object("a.obj", memory)]), LinkError::ArithmeticOverflow);
}

#[test]
fn a_discarded_section_cannot_claim_a_place() {
    let mut discarded = section(1, ".debug", 0x4200_0040, &[1], 1);
    discarded.output_section = Some(0);
    assert_eq!(failure(vec![object("a.obj", vec![discarded])]), LinkError::SectionRemap);
}

#[test]
fn a_kept_section_may_claim_any_place() {
    let mut kept = section(1, ".text", CODE, &[1], 1);
    kept.output_section = Some(77);
    kept.output_offset = 5;
    let layout = lay_out(vec![object("a.obj", vec![kept])]).ok().unwrap();
    assert_eq!(layout.objects[0].sections[0].output_section, Some(0));
    assert_eq!(layout.objects[0].sections[0].output_offset, 0);
}

#[test]
fn places_are_given_up_to_the_first_false_claim() {
    let mut layout = compute_layout(
        &args(),
        vec![object(
            "a.obj",
            vec![
                section(1, ".text", CODE, &[1], 1),
                section(2, ".debug", 0x4200_0040, &[1], 1),
                section(3, ".data", DATA, &[1], 1),
            ],
        )],
    )
    .ok()
    .unwrap();
    let sections = &mut layout.objects[0].sections;
    for section in sections.iter_mut() {
        section.output_section = Some(9);
        section.output_offset = 77;
    }
    assert_eq!(
        remap_output_section_indices(&mut layout.objects, &layout.sections),
        Err(LinkError::SectionRemap)
    );
    let places: Vec<(Option<usize>, u32)> =
        layout.objects[0].sections.iter().map(|s| (s.output_section, s.output_offset)).collect();
    assert_eq!(places, vec![(Some(0), 0), (Some(9), 77), (Some(9), 77)]);
}

#[test]
fn a_section_without_room_is_not_placed() {
    let mut outputs = Vec::new();
    let big = section(1, ".data", DATA, &[], 0xFFFF_0000);
    assert_eq!(place_section(&mut outputs, &big, 0, 0), Ok((0, 0)));
    assert_eq!(
        place_section(&mut outputs, &big, 0, 1),
        Err(LinkError::SectionSizeOverflow)
    );
    assert_eq!(outputs.len(), 1);
    assert_eq!(outputs[0].virtual_size, 0xFFFF_0000);
    assert_eq!(outputs[0].contributions.len(), 1);
    let small = section(2, ".text", CODE, &[1, 2], 2);
    assert_eq!(place_section(&mut outputs, &small, 1, 0), Ok((1, 0)));
    assert_eq!(place_section(&mut outputs, &small, 1, 1), Ok((1, 2)));
}
