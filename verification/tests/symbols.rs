use pelink::args::{Architecture, PeArgs};
use pelink::error::LinkError;
use pelink::input::{
    InputObject, InputRelocationTarget, InputSection, InputSymbol, SymbolSection,
};
use pelink::pe_layout::{compute_layout, PeLayout};
use pelink::pe_symbols::{
    entry_point_names, find_entry_point_rva, input_section_address, relocation_target_address,
    resolve_symbols, section_symbol_index, symbol_address,
};

const CODE: u32 = 0x6000_0020;
const DATA: u32 = 0xC000_0040;

fn args() -> PeArgs {
    PeArgs {
        arch: Architecture::X86_64,
        entry: None,
        is_dll: false,
        base_address: None,
        subsystem: None,
        large_address_aware: false,
        high_entropy_va: false,
        dynamic_base: false,
        nx_compat: false,
        terminal_server_aware: false,
        stack_size: None,
        heap_size: None,
    }
}

fn section(index: usize, name: &str, characteristics: u32, data: &[u8]) -> InputSection {
    InputSection {
        index,
        name: name.as_bytes().to_vec(),
        data: data.to_vec(),
        size: data.len() as u32,
        characteristics,
        relocations: Vec::new(),
        output_section: None,
        output_offset: 0,
    }
}

fn defined(name: &str, section: usize, value: u64) -> InputSymbol {
    InputSymbol {
        name: Some(name.to_owned()),
        section: SymbolSection::Section(section),
        value,
        is_undefined: false,
        is_definition: true,
        is_local: false,
    }
}

fn undefined(name: &str) -> InputSymbol {
    InputSymbol {
        name: Some(name.to_owned()),
        section: SymbolSection::Undefined,
        value: 0,
        is_undefined: true,
        is_definition: false,
        is_local: false,
    }
}

fn object(path: &str, sections: Vec<InputSection>, symbols: Vec<InputSymbol>) -> InputObject {
    InputObject { path: path.to_owned(), sections, symbols }
}

fn layout_of(objects: Vec<InputObject>) -> PeLayout {
    compute_layout(&args(), objects).ok().unwrap()
}

fn resolved(objects: Vec<InputObject>) -> PeLayout {
    let mut layout = layout_of(objects);
    assert_eq!(resolve_symbols(&mut layout), Ok(()));
    layout
}

fn two_objects() -> Vec<InputObject> {
    vec![
        object(
            "a.obj",
            vec![section(1, ".text", CODE, &[0x90; 8]), section(2, ".data", DATA, &[1, 2, 3, 4])],
            vec![
                defined("mainCRTStartup", 1, 4),
                undefined("helper"),
                InputSymbol::placeholder(),
                defined("value", 2, 2),
            ],
        ),
        object(
            "b.obj",
            vec![section(1, ".text", CODE, &[0xCC; 4])],
            vec![defined("helper", 1, 1), undefined("value"), undefined("nobody")],
        ),
    ]
}

#[test]
fn definitions_and_addresses_are_found() {
    let layout = resolved(two_objects());
    assert_eq!(layout.global_definitions.get("mainCRTStartup"), Some(&(0, 0)));
    assert_eq!(layout.global_definitions.get("value"), Some(&(0, 3)));
    assert_eq!(layout.global_definitions.get("helper"), Some(&(1, 0)));
    assert!(layout.global_definitions.get("nobody").is_none());
    assert_eq!(
        layout.symbol_addresses,
        vec![
            vec![Some(0x1_4000_1004), None, None, Some(0x1_4000_2002)],
            vec![Some(0x1_4000_1009), None, None],
        ]
    );
}

#[test]
fn undefined_symbols_take_the_address_of_their_definition() {
    let layout = resolved(two_objects());
    assert_eq!(symbol_address(&layout, 0, 1), symbol_address(&layout, 1, 0));
    assert_eq!(symbol_address(&layout, 0, 1), Ok(0x1_4000_1009));
    assert_eq!(symbol_address(&layout, 1, 1), Ok(0x1_4000_2002));
}

#[test]
fn symbols_without_definition_are_unresolved() {
    let layout = resolved(two_objects());
    assert_eq!(
        symbol_address(&layout, 1, 2),
        Err(LinkError::UnresolvedSymbol { object: 1, symbol: 2 })
    );
    assert_eq!(
        symbol_address(&layout, 0, 2),
        Err(LinkError::UnresolvedSymbol { object: 0, symbol: 2 })
    );
    assert_eq!(
        symbol_address(&layout, 0, 9),
        Err(LinkError::MissingSymbol { object: 0, symbol: 9 })
    );
}

#[test]
fn two_definitions_of_one_name_are_refused() {
    let mut layout = layout_of(vec![
        object("a.obj", vec![section(1, ".text", CODE, &[1])], vec![defined("f", 1, 0)]),
        object("b.obj", vec![section(1, ".text", CODE, &[1])], vec![defined("f", 1, 0)]),
    ]);
    assert_eq!(
        resolve_symbols(&mut layout),
        Err(LinkError::DuplicateSymbol { previous_object: 0, object: 1, symbol: 0 })
    );
    // The later one is in place, and no address has been looked for.
    assert_eq!(layout.global_definitions.get("f"), Some(&(1, 0)));
    assert_eq!(layout.symbol_addresses, vec![vec![None], vec![None]]);
}

#[test]
fn addresses_in_front_of_a_failure_are_found() {
    let mut layout = layout_of(vec![object(
        "a.obj",
        vec![section(1, ".text", CODE, &[1])],
        vec![defined("f", 1, 0), defined("g", 7, 0), defined("h", 1, 0)],
    )]);
    assert_eq!(
        resolve_symbols(&mut layout),
        Err(LinkError::MissingSymbolSection { object: 0, section_id: 7 })
    );
    assert!(layout.symbol_addresses[0][0].is_some());
    assert_eq!(layout.symbol_addresses[0][1..], [None, None]);
    assert_eq!(layout.global_definitions.get("h"), Some(&(0, 2)));
}

#[test]
fn local_and_discarded_symbols_define_nothing() {
    let mut local = defined("f", 1, 0);
    local.is_local = true;
    let mut objects = vec![
        object("a.obj", vec![section(1, ".text", CODE, &[1, 2])], vec![local, defined("f", 1, 1)]),
        object(
            "b.obj",
            vec![section(1, ".debug", 0x4200_0040, &[1])],
            vec![defined("f", 1, 0), defined("only", 1, 0)],
        ),
    ];
    objects[0].symbols.push(InputSymbol { name: None, ..defined("", 1, 0) });
    let layout = resolved(objects);
    assert_eq!(layout.global_definitions.get("f"), Some(&(0, 1)));
    assert!(layout.global_definitions.get("only").is_none());
    // A local symbol still has an address, a symbol of a discarded section has none.
    assert_eq!(layout.symbol_addresses[0][0], Some(0x1_4000_1000));
    assert_eq!(layout.symbol_addresses[1], vec![None, None]);
}

#[test]
fn absolute_symbols_have_their_value_for_address() {
    let mut absolute = defined("abs", 1, 0x1234);
    absolute.section = SymbolSection::Absolute;
    let mut zero = defined("zero", 1, 0);
    zero.section = SymbolSection::Absolute;
    let mut common = defined("common", 1, 8);
    common.section = SymbolSection::Common;
    let layout = resolved(vec![object(
        "a.obj",
        vec![section(1, ".text", CODE, &[1])],
        vec![absolute, zero, common],
    )]);
    assert_eq!(layout.symbol_addresses, vec![vec![Some(0x1234), None, None]]);
    assert!(layout.global_definitions.get("abs").is_none());
}

#[test]
fn a_symbol_in_a_missing_section_is_refused() {
    let mut layout = layout_of(vec![object(
        "a.obj",
        vec![section(1, ".text", CODE, &[1])],
        vec![defined("f", 7, 0)],
    )]);
    assert_eq!(
        resolve_symbols(&mut layout),
        Err(LinkError::MissingSymbolSection { object: 0, section_id: 7 })
    );
}

#[test]
fn addresses_can_overflow() {
    let mut layout = layout_of(vec![object(
        "a.obj",
        vec![section(1, ".text", CODE, &[1])],
        vec![defined("f", 1, u64::MAX)],
    )]);
    assert_eq!(resolve_symbols(&mut layout), Err(LinkError::ArithmeticOverflow));
    let mut high = layout_of(vec![object(
        "a.obj",
        vec![section(1, ".text", CODE, &[1])],
        vec![defined("f", 1, 0)],
    )]);
    high.image_base = u64::MAX - 0x10;
    assert_eq!(resolve_symbols(&mut high), Err(LinkError::ArithmeticOverflow));
}

#[test]
fn the_last_section_with_an_index_holds_its_symbols() {
    let layout = resolved(vec![object(
        "a.obj",
        vec![section(1, ".text", CODE, &[1]), section(1, ".data", DATA, &[2])],
        vec![defined("f", 1, 0)],
    )]);
    assert_eq!(layout.symbol_addresses, vec![vec![Some(0x1_4000_2000)]]);
    // A relocation takes the first one.
    assert_eq!(
        relocation_target_address(&layout, 0, &InputRelocationTarget::Section(1)),
        Ok(0x1_4000_1000)
    );
}

#[test]
fn sections_have_addresses() {
    let layout = layout_of(two_objects());
    assert_eq!(input_section_address(&layout, 0, 0), Ok(0x1_4000_1000));
    assert_eq!(input_section_address(&layout, 1, 0), Ok(0x1_4000_1008));
    assert_eq!(input_section_address(&layout, 0, 1), Ok(0x1_4000_2000));
    let mut absent = layout_of(vec![object(
        "a.obj",
        vec![section(1, ".debug", 0x4200_0040, &[1])],
        Vec::new(),
    )]);
    assert_eq!(
        input_section_address(&absent, 0, 0),
        Err(LinkError::SectionNotInOutput { object: 0, section: 0 })
    );
    absent.image_base = 0;
    assert_eq!(
        relocation_target_address(&absent, 0, &InputRelocationTarget::Section(1)),
        Err(LinkError::SectionNotInOutput { object: 0, section: 0 })
    );
}

#[test]
fn relocation_targets_are_found() {
    let layout = resolved(two_objects());
    assert_eq!(
        relocation_target_address(&layout, 0, &InputRelocationTarget::Symbol(1)),
        Ok(0x1_4000_1009)
    );
    assert_eq!(
        relocation_target_address(&layout, 0, &InputRelocationTarget::Section(2)),
        Ok(0x1_4000_2000)
    );
    assert_eq!(relocation_target_address(&layout, 0, &InputRelocationTarget::Absolute), Ok(0));
    assert_eq!(
        relocation_target_address(&layout, 1, &InputRelocationTarget::Section(9)),
        Err(LinkError::MissingRelocationSection { object: 1, section_id: 9 })
    );
}

#[test]
fn output_sections_are_numbered_from_one() {
    let mut layout = resolved(two_objects());
    assert_eq!(section_symbol_index(&layout, 0, 1), Ok(1));
    assert_eq!(section_symbol_index(&layout, 0, 2), Ok(2));
    assert_eq!(
        section_symbol_index(&layout, 0, 3),
        Err(LinkError::MissingRelocationSection { object: 0, section_id: 3 })
    );
    layout.objects[0].sections[0].output_section = None;
    assert_eq!(section_symbol_index(&layout, 0, 1), Err(LinkError::DiscardedSection));
    layout.objects[0].sections[0].output_section = Some(65534);
    assert_eq!(section_symbol_index(&layout, 0, 1), Ok(65535));
    layout.objects[0].sections[0].output_section = Some(65535);
    assert_eq!(section_symbol_index(&layout, 0, 1), Err(LinkError::TooManySections));
    layout.objects[0].sections[0].output_section = Some(usize::MAX);
    assert_eq!(section_symbol_index(&layout, 0, 1), Err(LinkError::ArithmeticOverflow));
}

#[test]
fn entry_points_have_default_names() {
    assert_eq!(
        entry_point_names(&args()),
        vec!["mainCRTStartup", "_mainCRTStartup", "WinMainCRTStartup"]
    );
    let dll = PeArgs { is_dll: true, ..args() };
    assert_eq!(entry_point_names(&dll), vec!["_DllMainCRTStartup"]);
    let named = PeArgs { entry: Some("go".to_owned()), is_dll: true, ..args() };
    assert_eq!(entry_point_names(&named), vec!["go"]);
}

#[test]
fn the_entry_point_is_found() {
    let layout = resolved(two_objects());
    assert_eq!(find_entry_point_rva(&args(), &layout), Ok(0x1004));
    let named = PeArgs { entry: Some("helper".to_owned()), ..args() };
    assert_eq!(find_entry_point_rva(&named, &layout), Ok(0x1009));
    let missing = PeArgs { entry: Some("nobody".to_owned()), ..args() };
    assert_eq!(find_entry_point_rva(&missing, &layout), Err(LinkError::EntryPointNotFound));
}

#[test]
fn the_first_defined_candidate_is_the_entry_point() {
    let layout = resolved(vec![object(
        "a.obj",
        vec![section(1, ".text", CODE, &[1; 4])],
        vec![defined("WinMainCRTStartup", 1, 3), defined("_mainCRTStartup", 1, 2)],
    )]);
    assert_eq!(find_entry_point_rva(&args(), &layout), Ok(0x1002));
}

#[test]
fn the_entry_point_has_to_be_in_the_image() {
    let mut layout = resolved(vec![object(
        "a.obj",
        vec![section(1, ".text", CODE, &[1])],
        vec![defined("_mainCRTStartup", 1, 0x2_0000_0000)],
    )]);
    assert_eq!(
        find_entry_point_rva(&args(), &layout),
        Err(LinkError::EntryPointOutsideImage { candidate: 1 })
    );
    layout.image_base = u64::MAX;
    assert_eq!(
        find_entry_point_rva(&args(), &layout),
        Err(LinkError::EntryPointOutsideImage { candidate: 1 })
    );
}
