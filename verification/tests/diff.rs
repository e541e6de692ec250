use pelink::args::{Architecture, PeArgs};
use pelink::input::{InputObject, InputSection, InputSymbol, SymbolSection};
use pelink::pe_diff::{
    aspect_value, base_relocations, compare_facts, compare_images, compare_value,
    data_directories,
    directory_name, file_characteristics, imports, insert_distinct, relocation_type_name,
    report_from_config, section_characteristics, sections, Aspect, DiffError, FactsFailure,
    PeFacts,
};
use pelink::pe_file::{PeHeader, PeSection, RelocationBlock};
use pelink::pe_link::link_objects;
use pelink::report::{first_equals_any, report_values, Diff, DiffValues, Report};

const CODE: u32 = 0x6000_0020;
const READ_ONLY: u32 = 0x4000_0040;

fn args() -> PeArgs {
    PeArgs {
        arch: Architecture::X86_64,
        entry: None,
        is_dll: false,
        base_address: None,
        subsystem: None,
        large_address_aware: false,
        high_entropy_va: false,
        dynamic_base: false,
        nx_compat: false,
        terminal_server_aware: false,
        stack_size: None,
        heap_size: None,
    }
}

fn section(index: usize, name: &str, characteristics: u32, data: &[u8]) -> InputSection {
    InputSection {
        index,
        name: name.as_bytes().to_vec(),
        data: data.to_vec(),
        size: data.len() as u32,
        characteristics,
        relocations: Vec::new(),
        output_section: None,
        output_offset: 0,
    }
}

/// An image with a `.text` at 0x1000 and an `.rdata` at 0x2000.
fn image(args: &PeArgs, contents: &[u8]) -> Vec<u8> {
    let entry = InputSymbol {
        name: Some(if args.is_dll { "_DllMainCRTStartup" } else { "mainCRTStartup" }.to_owned()),
        section: SymbolSection::Section(1),
        value: 0,
        is_undefined: false,
        is_definition: true,
        is_local: false,
    };
    let object = InputObject {
        path: "m.obj".to_owned(),
        sections: vec![
            section(1, ".text", CODE, &[0xC3]),
            section(2, ".rdata", READ_ONLY, contents),
        ],
        symbols: vec![entry],
    };
    link_objects(args, vec![object]).ok().unwrap()
}

fn put(data: &mut [u8], offset: usize, bytes: &[u8]) {
    data[offset..offset + bytes.len()].copy_from_slice(bytes);
}

fn put_word(data: &mut [u8], offset: usize, value: u32) {
    put(data, offset, &value.to_le_bytes());
}

/// Sets a data directory in the headers of an image.
fn set_directory(image: &mut [u8], index: usize, address: u32, size: u32) {
    put_word(image, 200 + 8 * index, address);
    put_word(image, 204 + 8 * index, size);
}

/// Contents that hold two import descriptors and two blocks of base relocations; they stand at
/// address 0x2000.
fn tables() -> Vec<u8> {
    let mut data = vec![0; 0x200];
    for (place, (thunks, name)) in [(0x40, 0x80), (0x60, 0x90)].into_iter().enumerate() {
        put_word(&mut data, 20 * place, 0x2000 + thunks);
        put_word(&mut data, 20 * place + 12, 0x2000 + name);
        put_word(&mut data, 20 * place + 16, 0x2000 + thunks);
    }
    put_word(&mut data, 0x40, 0x20A0);
    put_word(&mut data, 0x48, 0x20B0);
    put_word(&mut data, 0x60, 0x20A0);
    put(&mut data, 0x80, b"USER32.dll\0");
    put(&mut data, 0x90, b"user32.DLL\0");
    put(&mut data, 0xA0, b"\0\0Foo\0");
    put(&mut data, 0xB0, b"\0\0Bar\0");
    for (place, page, entries) in
        [(0xC0, 0x1000, [0xA000u16, 0x0000]), (0xCC, 0x2000, [0x3004, 0xA008])]
    {
        put_word(&mut data, place, page);
        put_word(&mut data, place + 4, 12);
        put(&mut data, place + 8, &entries[0].to_le_bytes());
        put(&mut data, place + 10, &entries[1].to_le_bytes());
    }
    data
}

fn image_with_tables() -> Vec<u8> {
    let mut data = image(&args(), &tables());
    set_directory(&mut data, 1, 0x2000, 60);
    set_directory(&mut data, 5, 0x20C0, 24);
    data
}

fn differences(report: &Report) -> Vec<(&str, Vec<&str>)> {
    report
        .diffs
        .iter()
        .map(|diff| match &diff.values {
            DiffValues::PerObject(values) => {
                (diff.key.as_str(), values.iter().map(String::as_str).collect())
            }
        })
        .collect()
}

#[test]
fn file_flags_are_named() {
    assert_eq!(file_characteristics(0), "none");
    assert_eq!(file_characteristics(0x0002), "executable");
    assert_eq!(
        file_characteristics(0xFFFF),
        "executable|dll|large-address-aware|relocs-stripped"
    );
    assert_eq!(file_characteristics(0x2022), "executable|dll|large-address-aware");
    assert_eq!(file_characteristics(0x0001), "relocs-stripped");
    assert_eq!(file_characteristics(0x0100), "none");
}

#[test]
fn section_flags_are_named() {
    assert_eq!(section_characteristics(0x0000_1000), "none");
    assert_eq!(section_characteristics(CODE), "code|x|r");
    assert_eq!(section_characteristics(0xC000_0080), "bss|r|w");
    assert_eq!(section_characteristics(0xFFFF_FFFF), "code|idata|bss|x|r|w|discard");
}

#[test]
fn texts_of_flags_tell_the_compared_flags_apart() {
    let bits = [5, 6, 7, 25, 29, 30, 31];
    let spread = |n: u32| (0..7).filter(|k| n >> k & 1 == 1).map(|k| 1u32 << bits[k]).sum::<u32>();
    let mut texts: Vec<String> = (0..128).map(|n| section_characteristics(spread(n))).collect();
    // All other flags make no difference.
    let noise = !(0..7).map(|k| 1u32 << bits[k]).sum::<u32>();
    for n in 0..128 {
        assert_eq!(section_characteristics(spread(n) | noise), texts[n as usize]);
    }
    texts.sort();
    texts.dedup();
    assert_eq!(texts.len(), 128);
    let mut texts: Vec<String> = (0..=0xFFFF).map(file_characteristics).collect();
    texts.sort();
    texts.dedup();
    assert_eq!(texts.len(), 16);
}

#[test]
fn sections_are_listed_in_order() {
    let named = |name: &str, characteristics: Option<u32>| PeSection {
        name: Some(name.to_owned()),
        characteristics,
    };
    let list = vec![
        named(".text", Some(CODE)),
        named(".data", Some(0xC000_0040)),
        PeSection { name: None, characteristics: None },
        named(".b", None),
    ];
    assert_eq!(
        sections(&list),
        vec![".b:unknown", ".data:idata|r|w", ".text:code|x|r", "<invalid>:unknown"]
    );
    // The order in the file does not matter.
    let turned: Vec<PeSection> = list.into_iter().rev().collect();
    assert_eq!(
        sections(&turned),
        vec![".b:unknown", ".data:idata|r|w", ".text:code|x|r", "<invalid>:unknown"]
    );
    assert_eq!(sections(&vec![]), Vec::<String>::new());
}

#[test]
fn only_directories_with_contents_count() {
    assert_eq!(
        data_directories(&vec![
            Some((0x1000, 8)),
            Some((0, 8)),
            Some((0x1000, 0)),
            None,
            Some((0, 0)),
            Some((1, 1)),
        ]),
        vec!["export", "basereloc"]
    );
    let all: Vec<String> = (0..15).map(directory_name).collect();
    assert_eq!(data_directories(&vec![Some((1, 1)); 15]), all);
    assert_eq!(
        all,
        vec![
            "export",
            "import",
            "resource",
            "exception",
            "security",
            "basereloc",
            "debug",
            "architecture",
            "globalptr",
            "tls",
            "load-config",
            "bound-import",
            "iat",
            "delay-import",
            "com-descriptor",
        ]
    );
}

#[test]
fn imports_are_a_set() {
    let import = |library: &[u8], name: &[u8]| (library.to_vec(), name.to_vec());
    let list = vec![
        import(b"USER32.dll", b"MessageBoxA"),
        import(b"KERNEL32.dll", b"Sleep"),
        import(b"kernel32.DLL", b"Sleep"),
        import(b"kernel32.dll", b"sleep"),
        import(b"A\xFF.dll", b"f\xFF"),
    ];
    let expected = vec![
        "a\u{fffd}.dll!f\u{fffd}",
        "kernel32.dll!Sleep",
        "kernel32.dll!sleep",
        "user32.dll!MessageBoxA",
    ];
    assert_eq!(imports(&list), expected);
    let turned: Vec<_> = list.into_iter().rev().collect();
    assert_eq!(imports(&turned), expected);
    assert_eq!(imports(&vec![]), Vec::<String>::new());
}

#[test]
fn values_are_inserted_once() {
    let mut list = Vec::new();
    for value in [5, 1, 9, 5, 1, 0, 9] {
        insert_distinct(&mut list, value);
    }
    assert_eq!(list, vec![0, 1, 5, 9]);
}

#[test]
fn relocation_types_have_names() {
    let names: Vec<String> = [0, 1, 2, 3, 4, 10, 5, 15].into_iter().map(relocation_type_name).collect();
    assert_eq!(
        names,
        vec!["ABSOLUTE", "HIGH", "LOW", "HIGHLOW", "HIGHADJ", "DIR64", "0x5", "0xf"]
    );
}

#[test]
fn base_relocations_are_summed_up() {
    assert_eq!(base_relocations(&None).unwrap(), "absent");
    assert_eq!(base_relocations(&Some(vec![])).unwrap(), "absent");
    let block = |page: u32, types: &[u16]| RelocationBlock { page, types: types.to_vec() };
    assert_eq!(
        base_relocations(&Some(vec![
            block(0x2000, &[10, 10, 0]),
            block(0x1000, &[3, 7]),
            block(0x2000, &[10]),
        ]))
        .unwrap(),
        "blocks=3,entries=5,pages=2,types=HIGHLOW|0x7|DIR64"
    );
    // A block that only holds padding has no entries.
    assert_eq!(
        base_relocations(&Some(vec![block(0, &[0, 0])])).unwrap(),
        "blocks=1,entries=0,pages=1,types="
    );
}

#[test]
fn facts_are_read_from_an_image() {
    let facts = PeFacts::parse(&image_with_tables()).unwrap();
    assert_eq!(facts.machine, 0x8664);
    assert_eq!(facts.subsystem, 3);
    assert_eq!(facts.characteristics, "executable");
    assert!(facts.has_entry);
    assert_eq!(facts.sections, vec![".rdata:idata|r", ".text:code|x|r"]);
    assert_eq!(facts.data_directories, vec!["import", "basereloc"]);
    assert_eq!(facts.imports, vec!["user32.dll!Bar", "user32.dll!Foo"]);
    assert_eq!(
        facts.base_relocations,
        "blocks=2,entries=3,pages=2,types=HIGHLOW|DIR64"
    );
    let plain = PeFacts::parse(&image(&args(), &[1])).unwrap();
    assert_eq!(plain.data_directories, Vec::<String>::new());
    assert_eq!(plain.imports, Vec::<String>::new());
    assert_eq!(plain.base_relocations, "absent");
}

#[test]
fn broken_images_have_no_facts() {
    assert_eq!(PeFacts::parse(b"MZ").err().unwrap(), FactsFailure::Parse);
    let mut data = image_with_tables();
    set_directory(&mut data, 1, 0x0FFF_0000, 60);
    assert_eq!(PeFacts::parse(&data).err().unwrap(), FactsFailure::Imports);
    let mut data = image_with_tables();
    // A block that is smaller than its own header.
    set_directory(&mut data, 1, 0, 0);
    put_word(&mut data, 0x400 + 0xC4, 4);
    assert_eq!(PeFacts::parse(&data).err().unwrap(), FactsFailure::BaseRelocations);
}

#[test]
fn facts_are_made_of_their_parts() {
    let header =
        PeHeader { machine: 0x14C, subsystem: 2, characteristics: 0x2000, entry_point: 0 };
    let facts = PeFacts::from_parts(
        header,
        &vec![PeSection { name: Some(".x".to_owned()), characteristics: Some(0) }],
        &vec![None, Some((4, 4))],
        &vec![(b"L".to_vec(), b"n".to_vec())],
        &Some(vec![RelocationBlock { page: 0, types: vec![1] }]),
    )
    .unwrap();
    assert!(!facts.has_entry);
    let values: Vec<String> = [
        Aspect::Machine,
        Aspect::Subsystem,
        Aspect::Characteristics,
        Aspect::Entry,
        Aspect::Sections,
        Aspect::DataDirectories,
        Aspect::Imports,
        Aspect::BaseRelocations,
    ]
    .into_iter()
    .map(|aspect| aspect_value(&facts, aspect))
    .collect();
    assert_eq!(
        values,
        vec![
            "0x14c",
            "0x2",
            "dll",
            "absent",
            ".x:none",
            "import",
            "l!n",
            "blocks=1,entries=1,pages=1,types=HIGH",
        ]
    );
}

#[test]
fn equal_files_do_not_differ() {
    let data = image_with_tables();
    let report = compare_images(false, &[data.clone(), data]).unwrap();
    assert_eq!(report.diffs.len(), 0);
}

#[test]
fn what_differs_is_reported() {
    let mut dll = args();
    dll.is_dll = true;
    let other = image(&dll, &[1]);
    let report = compare_images(false, &[image_with_tables(), other]).unwrap();
    assert_eq!(
        differences(&report),
        vec![
            ("pe.characteristics", vec!["executable", "executable|dll"]),
            ("pe.data-directories", vec!["import,basereloc", ""]),
            ("pe.imports", vec!["user32.dll!Bar,user32.dll!Foo", ""]),
            (
                "pe.base-relocations",
                vec!["blocks=2,entries=3,pages=2,types=HIGHLOW|DIR64", "absent"]
            ),
        ]
    );
}

#[test]
fn one_equal_file_is_enough() {
    let mut dll = args();
    dll.is_dll = true;
    let plain = image(&args(), &[1]);
    let other = image(&dll, &[1]);
    let files = [plain.clone(), other.clone(), plain.clone()];
    assert_eq!(compare_images(false, &files).unwrap().diffs.len(), 0);
    // The others being equal does not help.
    let files = [plain, other.clone(), other];
    assert_eq!(
        differences(&compare_images(false, &files).unwrap()),
        vec![(
            "pe.characteristics",
            vec!["executable", "executable|dll", "executable|dll"]
        )]
    );
}

#[test]
fn two_files_differ_both_ways() {
    let keys = |files: &[Vec<u8>]| {
        let report = compare_images(false, files).unwrap();
        report.diffs.into_iter().map(|diff| diff.key).collect::<Vec<String>>()
    };
    let (a, b) = (image_with_tables(), image(&args(), &[1]));
    let there = keys(&[a.clone(), b.clone()]);
    assert_eq!(there, vec!["pe.data-directories", "pe.imports", "pe.base-relocations"]);
    assert_eq!(keys(&[b, a]), there);
}

#[test]
fn where_a_directory_lies_does_not_matter() {
    let mut a = image(&args(), &[0; 64]);
    let mut b = image(&args(), &[0; 64]);
    // Exports are compared by whether there are any.
    set_directory(&mut a, 0, 0x2000, 8);
    set_directory(&mut b, 0, 0x2010, 16);
    assert_eq!(compare_images(false, &[a, b]).unwrap().diffs.len(), 0);
}

#[test]
fn files_that_cannot_be_compared_are_refused() {
    let good = image(&args(), &[1]);
    let bad = b"no image".to_vec();
    assert_eq!(compare_images(true, &[]).err().unwrap(), DiffError::Coverage);
    assert_eq!(compare_images(false, &[]).err().unwrap(), DiffError::TooFewFiles);
    assert_eq!(
        compare_images(false, &[good.clone()]).err().unwrap(),
        DiffError::TooFewFiles
    );
    assert_eq!(
        compare_images(false, &[bad.clone()]).err().unwrap(),
        DiffError::Facts { file: 0, failure: FactsFailure::Parse }
    );
    let mut broken = good.clone();
    set_directory(&mut broken, 1, 0x0FFF_0000, 60);
    // A file that is no image comes before one that only has broken imports.
    assert_eq!(
        compare_images(false, &[broken.clone(), bad]).err().unwrap(),
        DiffError::Facts { file: 1, failure: FactsFailure::Parse }
    );
    assert_eq!(
        compare_images(false, &[good, broken]).err().unwrap(),
        DiffError::Facts { file: 1, failure: FactsFailure::Imports }
    );
}

#[test]
fn reports_name_the_files_and_hold_what_is_kept() {
    let mut dll = args();
    dll.is_dll = true;
    let files = [image_with_tables(), image(&dll, &[1])];
    let names = || vec!["reference".to_owned(), "wild".to_owned()];
    let paths = || vec!["a/ref.exe", "b/wild.exe"];
    let report = |keeps: &dyn Fn(&str) -> bool| {
        report_from_config(false, &files, names(), paths(), &|key: &str| keeps(key)).unwrap()
    };
    let all = report(&|_| true);
    assert_eq!(all.names, names());
    assert_eq!(all.paths, paths());
    assert!(!all.coverage);
    assert_eq!(
        differences(&all.report),
        differences(&compare_images(false, &files).unwrap())
    );
    let ignored = report(&|key| !["pe.imports", "pe.characteristics"].contains(&key));
    assert_eq!(
        differences(&ignored.report),
        vec![
            ("pe.data-directories", vec!["import,basereloc", ""]),
            (
                "pe.base-relocations",
                vec!["blocks=2,entries=3,pages=2,types=HIGHLOW|DIR64", "absent"]
            ),
        ]
    );
    let only = report(&|key| key == "pe.imports" || key == "pe.machine");
    assert_eq!(
        differences(&only.report),
        vec![("pe.imports", vec!["user32.dll!Bar,user32.dll!Foo", ""])]
    );
    assert_eq!(report(&|_| false).report.diffs.len(), 0);
}

#[test]
fn refused_files_have_no_report() {
    let keeps = |_: &str| true;
    let files = [image(&args(), &[1])];
    assert_eq!(
        report_from_config(true, &files, vec![], vec!["a"], &keeps).err().unwrap(),
        DiffError::Coverage
    );
    assert_eq!(
        report_from_config(false, &files, vec![], vec!["a"], &keeps).err().unwrap(),
        DiffError::TooFewFiles
    );
}

#[test]
fn differences_are_kept_by_their_key() {
    let mut report = Report::new();
    for key in ["a", "b", "a", "c"] {
        report_values(&mut report, key, vec![key.to_owned(), "other".to_owned()]);
    }
    report.keep(&|key: &str| key != "b");
    assert_eq!(
        report.diffs.iter().map(|diff| diff.key.as_str()).collect::<Vec<&str>>(),
        vec!["a", "a", "c"]
    );
    report.keep(&|key: &str| key == "c");
    assert_eq!(differences(&report), vec![("c", vec!["c", "other"])]);
}

#[test]
fn what_is_not_compared_does_not_matter() {
    let a = image(&args(), &[1, 2, 3]);
    let mut b = image(&args(), &[9; 40]);
    // The timestamp, the checksum and the place of the entry point.
    let header = u32::from_le_bytes([b[0x3C], b[0x3D], b[0x3E], b[0x3F]]) as usize;
    put_word(&mut b, header + 8, 0x1234_5678);
    put_word(&mut b, header + 24 + 64, 0x0BAD_CAFE);
    put_word(&mut b, header + 24 + 16, 0x1001);
    assert_ne!(a, b);
    assert_eq!(compare_images(false, &[a.clone(), b.clone()]).unwrap().diffs.len(), 0);
    // Whether there is an entry point does.
    put_word(&mut b, header + 24 + 16, 0);
    assert_eq!(
        differences(&compare_images(false, &[a, b]).unwrap()),
        vec![("pe.entry", vec!["present", "absent"])]
    );
}

#[test]
fn facts_are_compared_by_any_value() {
    let facts = vec![
        PeFacts::parse(&image(&args(), &[1])).unwrap(),
        PeFacts::parse(&image_with_tables()).unwrap(),
    ];
    let mut report = Report::new();
    compare_value(&mut report, &facts, "same", |f: &PeFacts| f.characteristics.clone());
    assert_eq!(report.diffs.len(), 0);
    compare_value(&mut report, &facts, "other", |f: &PeFacts| {
        format!("{}", f.imports.len())
    });
    assert_eq!(differences(&report), vec![("other", vec!["0", "2"])]);
    assert_eq!(compare_facts(&facts).diffs.len(), 3);
    // There is nothing that a single file could be equal to.
    assert_eq!(compare_facts(&facts[..1]).diffs.len(), 8);
}

#[test]
fn the_first_value_decides() {
    let texts = |list: &[&str]| list.iter().map(|s| (*s).to_owned()).collect::<Vec<String>>();
    assert!(first_equals_any(&texts(&["a", "b", "a"])));
    assert!(!first_equals_any(&texts(&["a", "b", "b"])));
    assert!(!first_equals_any(&texts(&["a"])));
    let mut report = Report::new();
    report_values(&mut report, "x", texts(&["a", "a"]));
    report_values(&mut report, "y", texts(&["a", "b"]));
    report.add_diff(Diff {
        key: "z".to_owned(),
        values: DiffValues::PerObject(texts(&["c"])),
    });
    assert_eq!(differences(&report), vec![("y", vec!["a", "b"]), ("z", vec!["c"])]);
}
