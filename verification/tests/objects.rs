use object::write::{Object, Relocation, StandardSection, Symbol, SymbolSection as WriteSection};
use object::{BinaryFormat, Endianness, SymbolFlags, SymbolKind, SymbolScope};
use pelink::coff::{ArchiveFailure, InputKind, RawRelocation, RawSection};
use pelink::error::{LinkError, LoadErrorKind};
use pelink::input::{
    InputObject, InputRelocation, InputRelocationTarget, InputSymbol, SymbolSection,
};
use pelink::pe_archive::{
    check_member_kind, convert_failure, external_definitions, index_members, load_archive_member,
    load_archive_members, parse_archive, synthetic_path, unresolved_externals, InputArchive,
};
use pelink::args::{Architecture, PeArgs};
use pelink::pe_inputs::{
    add_input, input_role, load_input_objects, InputFailure, InputFile, InputRole,
};
use pelink::pe_link::{link_pe, PeFailure};
use pelink::pe_object::{convert_relocation, convert_section, parse_input_object, place_symbol};

fn external(name: &str, section: WriteSection, value: u64, kind: SymbolKind) -> Symbol {
    Symbol {
        name: name.as_bytes().to_vec(),
        value,
        size: 0,
        kind,
        scope: if section == WriteSection::Undefined {
            SymbolScope::Unknown
        } else {
            SymbolScope::Linkage
        },
        weak: false,
        section,
        flags: SymbolFlags::None,
    }
}

/// An object that defines `defines` in `.text` and calls `calls`.
fn coff(defines: &str, calls: &[&str]) -> Vec<u8> {
    let mut writer = Object::new(BinaryFormat::Coff, object::Architecture::X86_64, Endianness::Little);
    let text = writer.section_id(StandardSection::Text);
    writer.append_section_data(text, &vec![0x90; 5 * calls.len() + 1], 16);
    writer.add_symbol(external(defines, WriteSection::Section(text), 0, SymbolKind::Text));
    for (place, name) in calls.iter().enumerate() {
        let symbol =
            writer.add_symbol(external(name, WriteSection::Undefined, 0, SymbolKind::Text));
        writer
            .add_relocation(
                text,
                Relocation {
                    offset: 5 * place as u64 + 1,
                    symbol,
                    addend: -4,
                    flags: object::RelocationFlags::Coff {
                        typ: object::pe::IMAGE_REL_AMD64_REL32,
                    },
                },
            )
            .unwrap();
    }
    writer.write().unwrap()
}

fn parse(data: &[u8]) -> InputObject {
    parse_input_object("x.obj".to_owned(), data).unwrap()
}

fn names(object: &InputObject) -> Vec<Option<&str>> {
    object.symbols.iter().map(|s| s.name.as_deref()).collect()
}

#[test]
fn a_coff_object_is_read() {
    let object = parse(&coff("main", &["helper"]));
    assert_eq!(object.path, "x.obj");
    let text = &object.sections[0];
    assert_eq!(text.index, 1);
    assert_eq!(text.name, b".text".to_vec());
    assert_eq!(text.data, vec![0x90; 6]);
    assert_eq!(text.size, 6);
    assert_eq!(text.characteristics & 0xE000_00E0, 0x6000_0020);
    assert_eq!(text.output_section, None);
    assert_eq!(text.relocations.len(), 1);
    assert_eq!(text.relocations[0].offset, 1);
    assert_eq!(text.relocations[0].typ, 4);
    let target = match text.relocations[0].target {
        InputRelocationTarget::Symbol(index) => index,
        _ => panic!("the relocation should name a symbol"),
    };
    let helper = &object.symbols[target];
    assert_eq!(helper.name.as_deref(), Some("helper"));
    assert_eq!(helper.section, SymbolSection::Undefined);
    assert!(helper.is_undefined && !helper.is_definition && !helper.is_local);
    let main = object.symbols.iter().find(|s| s.name.as_deref() == Some("main")).unwrap();
    assert_eq!(main.section, SymbolSection::Section(1));
    assert!(main.is_definition && !main.is_undefined && !main.is_local);
}

#[test]
fn symbols_stand_at_their_index() {
    let mut writer = Object::new(BinaryFormat::Coff, object::Architecture::X86_64, Endianness::Little);
    writer.add_file_symbol(b"source.c".to_vec());
    let data = writer.section_id(StandardSection::Data);
    writer.append_section_data(data, &[7; 4], 4);
    writer.add_symbol(external("value", WriteSection::Section(data), 2, SymbolKind::Data));
    let bytes = writer.write().unwrap();
    let object = parse(&bytes);
    // The file symbol has an auxiliary record, which is a place of its own.
    assert_eq!(names(&object), vec![Some("source.c"), None, Some("value")]);
    assert_eq!(object.symbols[2].value, 2);
    let gap = &object.symbols[1];
    assert_eq!(gap.section, SymbolSection::Nowhere);
    assert!(gap.is_undefined && gap.is_local && !gap.is_definition);
    assert_eq!(gap.value, 0);
}

#[test]
fn broken_objects_are_refused() {
    // The section table reaches behind the end of the file.
    let mut cut = coff("main", &[]);
    cut.truncate(30);
    let error = parse_input_object("cut.obj".to_owned(), &cut).err().unwrap();
    assert_eq!(error.path, "cut.obj");
    assert_eq!(error.kind, LoadErrorKind::Parse);
}

#[test]
fn section_data_has_to_be_there() {
    let mut data = coff("main", &[]);
    // The file offset of the first section's data.
    data[40..44].copy_from_slice(&0x00FF_FFFFu32.to_le_bytes());
    let error = parse_input_object("a.obj".to_owned(), &data).err().unwrap();
    assert_eq!(error.kind, LoadErrorKind::SectionData);
}

#[test]
fn section_names_have_to_be_readable() {
    let mut data = coff("main", &[]);
    data[20..28].copy_from_slice(b"/99999\0\0");
    let error = parse_input_object("a.obj".to_owned(), &data).err().unwrap();
    assert_eq!(error.kind, LoadErrorKind::SectionName);
}

#[test]
fn relocations_are_converted() {
    let raw = RawRelocation {
        offset: 7,
        typ: Some(3),
        target: Some(InputRelocationTarget::Section(2)),
    };
    assert_eq!(
        convert_relocation(raw),
        Ok(InputRelocation { offset: 7, target: InputRelocationTarget::Section(2), typ: 3 })
    );
    assert_eq!(
        convert_relocation(RawRelocation { typ: None, target: None, ..raw }),
        Err(LoadErrorKind::RelocationFlags)
    );
    assert_eq!(
        convert_relocation(RawRelocation { target: None, offset: u64::MAX, ..raw }),
        Err(LoadErrorKind::RelocationTarget)
    );
    assert_eq!(
        convert_relocation(RawRelocation { offset: 0x1_0000_0000, ..raw }),
        Err(LoadErrorKind::RelocationOffset)
    );
    assert_eq!(
        convert_relocation(RawRelocation { offset: 0xFFFF_FFFF, ..raw }).unwrap().offset,
        0xFFFF_FFFF
    );
}

#[test]
fn sections_are_converted() {
    let raw = || RawSection {
        name: Some(b".x".to_vec()),
        characteristics: Some(0x40),
        data: Some(vec![1, 2]),
        size: 9,
    };
    let good =
        RawRelocation { offset: 1, typ: Some(1), target: Some(InputRelocationTarget::Absolute) };
    let bad = RawRelocation { typ: None, ..good };
    let section = convert_section(5, raw(), &vec![good, good]).ok().unwrap();
    assert_eq!((section.index, section.size, section.characteristics), (5, 9, 0x40));
    assert_eq!((section.name, section.data), (b".x".to_vec(), vec![1, 2]));
    assert_eq!(section.relocations.len(), 2);
    let kind = |raw: RawSection, list: Vec<RawRelocation>| {
        convert_section(5, raw, &list).err().unwrap()
    };
    assert_eq!(kind(RawSection { name: None, characteristics: None, ..raw() }, vec![bad]),
        LoadErrorKind::SectionName);
    assert_eq!(kind(RawSection { characteristics: None, data: None, ..raw() }, vec![bad]),
        LoadErrorKind::SectionFlags);
    assert_eq!(kind(RawSection { data: None, ..raw() }, vec![bad]), LoadErrorKind::SectionData);
    assert_eq!(kind(RawSection { size: 1 << 32, ..raw() }, vec![good, bad]),
        LoadErrorKind::RelocationFlags);
    assert_eq!(kind(RawSection { size: 1 << 32, ..raw() }, vec![good]),
        LoadErrorKind::SectionSize);
}

#[test]
fn symbols_are_put_in_their_places() {
    let named = |name: &str| InputSymbol {
        name: Some(name.to_owned()),
        section: SymbolSection::Absolute,
        value: 1,
        is_undefined: false,
        is_definition: true,
        is_local: false,
    };
    let mut symbols = Vec::new();
    place_symbol(&mut symbols, 2, named("two"));
    place_symbol(&mut symbols, 0, named(""));
    place_symbol(&mut symbols, 2, named("other"));
    assert_eq!(symbols.len(), 3);
    // An empty name is no name.
    assert_eq!(symbols[0].name, None);
    assert_eq!(symbols[0].section, SymbolSection::Absolute);
    assert_eq!(symbols[1].section, SymbolSection::Nowhere);
    assert_eq!(symbols[2].name.as_deref(), Some("other"));
}

// ---- archives ----

/// A member of an archive: its name, its contents, and the names that it defines.
struct Member<'a> {
    name: &'a str,
    data: Vec<u8>,
    symbols: Vec<&'a [u8]>,
}

fn member_header(name: &str, size: usize) -> Vec<u8> {
    format!("{:<16}{:<12}{:<6}{:<6}{:<8}{:<10}`\n", name, 0, 0, 0, 644, size).into_bytes()
}

fn padded(mut data: Vec<u8>) -> Vec<u8> {
    if data.len() % 2 != 0 {
        data.push(b'\n');
    }
    data
}

/// An archive with a symbol table, and the offsets of its members.
fn archive(members: &[Member]) -> (Vec<u8>, Vec<u64>) {
    let count: usize = members.iter().map(|m| m.symbols.len()).sum();
    let names: Vec<u8> = members
        .iter()
        .flat_map(|m| m.symbols.iter().flat_map(|s| s.iter().copied().chain([0])))
        .collect();
    let table_size = 4 + 4 * count + names.len();
    let mut offset = 8 + 60 + table_size + table_size % 2;
    let mut offsets = Vec::new();
    for member in members {
        offsets.push(offset as u64);
        offset += 60 + member.data.len() + member.data.len() % 2;
    }
    let mut table = (count as u32).to_be_bytes().to_vec();
    for (member, offset) in members.iter().zip(&offsets) {
        for _ in &member.symbols {
            table.extend((*offset as u32).to_be_bytes());
        }
    }
    table.extend(names);
    let mut file = b"!<arch>\n".to_vec();
    file.extend(member_header("/", table.len()));
    file.extend(padded(table));
    for member in members {
        file.extend(member_header(&format!("{}/", member.name), member.data.len()));
        file.extend(padded(member.data.clone()));
    }
    (file, offsets)
}

fn parsed_archive(path: &str, members: &[Member]) -> InputArchive {
    parse_archive(path.to_owned(), archive(members).0).ok().unwrap()
}

fn paths(objects: &[InputObject]) -> Vec<&str> {
    objects.iter().map(|o| o.path.as_str()).collect()
}

#[test]
fn the_first_archive_symbol_counts() {
    let (data, offsets) = archive(&[
        Member { name: "a.obj", data: coff("f", &[]), symbols: vec![b"f", b"g"] },
        Member { name: "b.obj", data: coff("g", &[]), symbols: vec![b"g", b"h"] },
    ]);
    let archive = parse_archive("lib.a".to_owned(), data).ok().unwrap();
    assert_eq!(archive.path, "lib.a");
    assert_eq!(archive.members_by_symbol.get("f"), Some(&offsets[0]));
    assert_eq!(archive.members_by_symbol.get("g"), Some(&offsets[0]));
    assert_eq!(archive.members_by_symbol.get("h"), Some(&offsets[1]));
    assert!(archive.members_by_symbol.get("x").is_none());
}

#[test]
fn archive_symbols_are_read_as_text() {
    let symbols = vec![
        (b"plain".to_vec(), 1),
        ("\u{e9}t\u{e9}".as_bytes().to_vec(), 2),
        (vec![b'a', 0xFF, b'b'], 3),
        (b"plain".to_vec(), 4),
    ];
    let members = index_members(&symbols);
    assert_eq!(members.len(), 3);
    assert_eq!(members.get("plain"), Some(&1));
    assert_eq!(members.get("\u{e9}t\u{e9}"), Some(&2));
    assert_eq!(members.get("a\u{fffd}b"), Some(&3));
}

#[test]
fn an_archive_without_symbols_defines_nothing() {
    let mut data = b"!<arch>\n".to_vec();
    data.extend(member_header("a.obj/", 2));
    data.extend([1, 2]);
    let archive = parse_archive("lib.a".to_owned(), data).ok().unwrap();
    assert_eq!(archive.members_by_symbol.len(), 0);
}

#[test]
fn broken_archives_are_refused() {
    let kind = |data: Vec<u8>| parse_archive("lib.a".to_owned(), data).err().unwrap().kind;
    assert_eq!(kind(b"no archive".to_vec()), LoadErrorKind::ArchiveParse);
    // The table claims more symbols than there is room for.
    let mut many = b"!<arch>\n".to_vec();
    many.extend(member_header("/", 4));
    many.extend([0, 0, 1, 0]);
    assert_eq!(kind(many), LoadErrorKind::ArchiveSymbols);
    // The name of the only symbol does not end.
    let mut open = b"!<arch>\n".to_vec();
    open.extend(member_header("/", 10));
    open.extend([0, 0, 0, 1, 0, 0, 0, 8, b'f', b'f']);
    assert_eq!(kind(open), LoadErrorKind::ArchiveSymbol);
    assert_eq!(convert_failure(ArchiveFailure::Parse, 3), LoadErrorKind::ArchiveParse);
    assert_eq!(
        convert_failure(ArchiveFailure::Member, 3),
        LoadErrorKind::ArchiveMember { offset: 3 }
    );
}

#[test]
fn members_are_loaded() {
    let (data, offsets) = archive(&[
        Member { name: "a.obj", data: coff("f", &["g"]), symbols: vec![b"f"] },
        Member { name: "import", data: import_member(), symbols: vec![] },
        Member { name: "text", data: vec![b'x'; 40], symbols: vec![] },
        Member { name: "elf", data: elf(), symbols: vec![] },
    ]);
    let archive = parse_archive("dir/lib.a".to_owned(), data).ok().unwrap();
    let member = load_archive_member(&archive, offsets[0]).ok().unwrap();
    assert_eq!(member.path, "dir/lib.a(a.obj)");
    assert!(member.symbols.iter().any(|s| s.name.as_deref() == Some("f")));
    let error = |offset| {
        let e = load_archive_member(&archive, offset).err().unwrap();
        (e.path, e.kind)
    };
    assert_eq!(
        error(offsets[1]),
        ("dir/lib.a(import)".to_owned(), LoadErrorKind::ImportLibrary)
    );
    assert_eq!(
        error(offsets[2]),
        ("dir/lib.a(text)".to_owned(), LoadErrorKind::MemberIdentify)
    );
    assert_eq!(
        error(offsets[3]),
        (
            "dir/lib.a(elf)".to_owned(),
            LoadErrorKind::UnsupportedMember { kind: InputKind::Elf64 }
        )
    );
    assert_eq!(
        error(1),
        ("dir/lib.a".to_owned(), LoadErrorKind::ArchiveMember { offset: 1 })
    );
}

fn import_member() -> Vec<u8> {
    let mut data = vec![0, 0, 0xFF, 0xFF, 0, 0, 0x64, 0x86];
    data.resize(40, 0);
    data
}

fn elf() -> Vec<u8> {
    let mut data = vec![0x7F, b'E', b'L', b'F', 2, 1, 1];
    data.resize(64, 0);
    data
}

#[test]
fn truncated_members_are_refused() {
    let (mut data, offsets) = archive(&[Member {
        name: "a.obj",
        data: coff("f", &[]),
        symbols: vec![b"f"],
    }]);
    data.truncate(offsets[0] as usize + 70);
    let archive = parse_archive("lib.a".to_owned(), data);
    let archive = match archive {
        Ok(archive) => archive,
        Err(e) => {
            assert_eq!(e.kind, LoadErrorKind::ArchiveParse);
            return;
        }
    };
    let error = load_archive_member(&archive, offsets[0]).err().unwrap();
    assert!(matches!(
        error.kind,
        LoadErrorKind::MemberData | LoadErrorKind::ArchiveMember { .. }
    ));
}

#[test]
fn member_kinds_are_checked() {
    assert_eq!(check_member_kind(Some(InputKind::Coff)), None);
    assert_eq!(check_member_kind(Some(InputKind::CoffBig)), None);
    assert_eq!(check_member_kind(None), Some(LoadErrorKind::MemberIdentify));
    assert_eq!(
        check_member_kind(Some(InputKind::CoffImport)),
        Some(LoadErrorKind::ImportLibrary)
    );
    assert_eq!(
        check_member_kind(Some(InputKind::Archive)),
        Some(LoadErrorKind::UnsupportedMember { kind: InputKind::Archive })
    );
    assert_eq!(
        check_member_kind(Some(InputKind::Other)),
        Some(LoadErrorKind::UnsupportedMember { kind: InputKind::Other })
    );
    assert_eq!(synthetic_path(&"l".to_owned(), &"m".to_owned()), "l(m)");
}

#[test]
fn needed_names_come_once_in_order() {
    let objects = vec![
        parse(&coff("main", &["b", "a", "local_here"])),
        parse(&coff("local_here", &["a", "c"])),
    ];
    let definitions = external_definitions(&objects);
    assert!(definitions.contains("main"));
    assert!(definitions.contains("local_here"));
    assert!(!definitions.contains("a"));
    assert_eq!(definitions.len(), 2);
    assert_eq!(unresolved_externals(&objects, &definitions), vec!["b", "a", "c"]);
    let none = external_definitions(&[]);
    assert_eq!(
        unresolved_externals(&objects, &none),
        vec!["b", "a", "local_here", "c"]
    );
}

#[test]
fn members_are_loaded_until_no_name_is_left() {
    let first = parsed_archive(
        "one.a",
        &[
            Member { name: "unused.obj", data: coff("unused", &[]), symbols: vec![b"unused"] },
            Member { name: "f.obj", data: coff("f", &["g", "main"]), symbols: vec![b"f"] },
        ],
    );
    let second = parsed_archive(
        "two.a",
        &[
            Member { name: "g.obj", data: coff("g", &["missing"]), symbols: vec![b"g"] },
            Member { name: "f2.obj", data: coff("f", &[]), symbols: vec![b"f"] },
        ],
    );
    let mut objects = vec![parse(&coff("main", &["f"]))];
    let archives = vec![first, second];
    assert!(load_archive_members(&mut objects, &archives).is_ok());
    assert_eq!(paths(&objects), vec!["x.obj", "one.a(f.obj)", "two.a(g.obj)"]);
    let definitions = external_definitions(&objects);
    assert_eq!(unresolved_externals(&objects, &definitions), vec!["missing"]);
    // Nothing is left to load.
    assert!(load_archive_members(&mut objects, &archives).is_ok());
    assert_eq!(objects.len(), 3);
}

#[test]
fn a_member_is_loaded_only_once() {
    // The table says that the member defines `f`, but it does not.
    let liar = parsed_archive(
        "liar.a",
        &[Member { name: "m.obj", data: coff("other", &[]), symbols: vec![b"f", b"g"] }],
    );
    let honest = parsed_archive(
        "honest.a",
        &[Member { name: "n.obj", data: coff("f", &[]), symbols: vec![b"f"] }],
    );
    let mut objects = vec![parse(&coff("main", &["f", "g"]))];
    assert!(load_archive_members(&mut objects, &[liar, honest]).is_ok());
    assert_eq!(paths(&objects), vec!["x.obj", "liar.a(m.obj)", "honest.a(n.obj)"]);
}

#[test]
fn a_broken_member_stops_loading() {
    let archive = parsed_archive(
        "lib.a",
        &[Member { name: "m.obj", data: vec![b'?'; 32], symbols: vec![b"f"] }],
    );
    let mut objects = vec![parse(&coff("main", &["f"]))];
    let error = load_archive_members(&mut objects, &[archive]).err().unwrap();
    assert_eq!(error.path, "lib.a(m.obj)");
    assert_eq!(error.kind, LoadErrorKind::MemberIdentify);
    assert_eq!(paths(&objects), vec!["x.obj"]);
}

#[test]
fn members_in_front_of_a_broken_one_stay() {
    let archive = parsed_archive(
        "lib.a",
        &[
            Member { name: "e.obj", data: coff("e", &["h"]), symbols: vec![b"e"] },
            Member { name: "m.obj", data: vec![b'?'; 32], symbols: vec![b"f"] },
            Member { name: "g.obj", data: coff("g", &[]), symbols: vec![b"g"] },
        ],
    );
    let mut objects = vec![parse(&coff("main", &["e", "f", "g"]))];
    assert!(load_archive_members(&mut objects, &[archive]).is_err());
    assert_eq!(paths(&objects), vec!["x.obj", "lib.a(e.obj)"]);
}

#[test]
fn nothing_is_loaded_without_need() {
    let archive = parsed_archive(
        "lib.a",
        &[Member { name: "m.obj", data: vec![b'?'; 32], symbols: vec![b"main", b"g"] }],
    );
    let mut objects = vec![parse(&coff("main", &["f"]))];
    assert!(load_archive_members(&mut objects, &[archive]).is_ok());
    assert_eq!(paths(&objects), vec!["x.obj"]);
}

// ---- inputs ----

#[test]
fn inputs_are_told_apart() {
    let mut objects = Vec::new();
    let mut archives = Vec::new();
    let (library, _) = archive(&[Member {
        name: "f.obj",
        data: coff("f", &[]),
        symbols: vec![b"f"],
    }]);
    assert!(add_input(&mut objects, &mut archives, "m.obj".to_owned(), coff("main", &[])).is_ok());
    assert!(add_input(&mut objects, &mut archives, "lib.a".to_owned(), library).is_ok());
    assert_eq!(paths(&objects), vec!["m.obj"]);
    assert_eq!(archives.len(), 1);
    assert_eq!(archives[0].path, "lib.a");
    let mut kind = |data: Vec<u8>| {
        let e = add_input(&mut objects, &mut archives, "p".to_owned(), data).err().unwrap();
        assert_eq!(e.path, "p");
        e.kind
    };
    assert_eq!(kind(b"short".to_vec()), LoadErrorKind::Identify);
    assert_eq!(kind(import_member()), LoadErrorKind::ImportLibrary);
    assert_eq!(kind(elf()), LoadErrorKind::UnsupportedKind { kind: InputKind::Elf64 });
    assert_eq!(kind(vec![0x64, 0x86, 9, 9, 9, 9, 9, 9, 9, 9, 9, 9, 9, 9, 9, 9]),
        LoadErrorKind::Parse);
    assert_eq!(objects.len(), 1);
}

#[test]
fn inputs_go_by_their_kind() {
    assert_eq!(input_role(Some(InputKind::Coff)), Ok(InputRole::Object));
    assert_eq!(input_role(Some(InputKind::CoffBig)), Ok(InputRole::Object));
    assert_eq!(input_role(Some(InputKind::Archive)), Ok(InputRole::Archive));
    assert_eq!(input_role(Some(InputKind::CoffImport)), Err(LoadErrorKind::ImportLibrary));
    for kind in [InputKind::Pe64, InputKind::MachO32, InputKind::Xcoff64, InputKind::Other] {
        assert_eq!(input_role(Some(kind)), Err(LoadErrorKind::UnsupportedKind { kind }));
    }
    assert_eq!(input_role(None), Err(LoadErrorKind::Identify));
}

fn files(list: Vec<(&'static str, Vec<u8>)>) -> impl Fn(usize) -> Result<InputFile, String> {
    move |number: usize| {
        let (path, data) = &list[number];
        if data.is_empty() {
            return Err(format!("no {path}"));
        }
        Ok(InputFile { path: (*path).to_owned(), data: data.clone() })
    }
}

#[test]
fn inputs_and_their_members_are_loaded() {
    let (library, _) = archive(&[
        Member { name: "f.obj", data: coff("f", &["g"]), symbols: vec![b"f"] },
        Member { name: "g.obj", data: coff("g", &[]), symbols: vec![b"g"] },
        Member { name: "h.obj", data: coff("h", &[]), symbols: vec![b"h"] },
    ]);
    // An archive serves objects on either side of it.
    let read = files(vec![
        ("a.obj", coff("main", &[])),
        ("lib.a", library),
        ("b.obj", coff("start", &["f"])),
    ]);
    let objects = load_input_objects(3, &read).ok().unwrap();
    assert_eq!(
        paths(&objects),
        vec!["a.obj", "b.obj", "lib.a(f.obj)", "lib.a(g.obj)"]
    );
    assert_eq!(load_input_objects(0, &read).ok().unwrap().len(), 0);
}

#[test]
fn the_first_bad_input_counts() {
    let failure = |list: Vec<(&'static str, Vec<u8>)>| {
        let count = list.len();
        load_input_objects(count, &files(list)).err().unwrap()
    };
    let good = coff("main", &["f"]);
    match failure(vec![("a", good.clone()), ("b", vec![]), ("c", vec![1])]) {
        InputFailure::Read(reason) => assert_eq!(reason, "no b"),
        InputFailure::Load(_) => panic!("the file should be missing"),
    }
    match failure(vec![("a", good.clone()), ("c", vec![1]), ("b", vec![])]) {
        InputFailure::Load(e) => assert_eq!((e.path.as_str(), e.kind), ("c", LoadErrorKind::Identify)),
        InputFailure::Read(_) => panic!("the file should be there"),
    }
    let (library, _) =
        archive(&[Member { name: "m", data: elf(), symbols: vec![b"f"] }]);
    match failure(vec![("l.a", library), ("a", good)]) {
        InputFailure::Load(e) => {
            assert_eq!(e.path, "l.a(m)");
            assert_eq!(e.kind, LoadErrorKind::UnsupportedMember { kind: InputKind::Elf64 });
        }
        InputFailure::Read(_) => panic!("the file should be there"),
    }
}

fn pe_args(arch: Architecture) -> PeArgs {
    PeArgs {
        arch,
        entry: None,
        is_dll: false,
        base_address: None,
        subsystem: None,
        large_address_aware: false,
        high_entropy_va: false,
        dynamic_base: false,
        nx_compat: false,
        terminal_server_aware: false,
        stack_size: None,
        heap_size: None,
    }
}

#[test]
fn inputs_are_linked() {
    let (library, _) =
        archive(&[Member { name: "f.obj", data: coff("f", &[]), symbols: vec![b"f"] }]);
    let read = files(vec![("a.obj", coff("mainCRTStartup", &["f"])), ("lib.a", library)]);
    let image = link_pe(&pe_args(Architecture::X86_64), 2, &read).ok().unwrap();
    // `f` follows the six bytes of the caller at the next multiple of 16, so that it lies eleven
    // bytes behind the field at 1.
    assert_eq!(image[0x200..0x206], [0x90, 11, 0, 0, 0, 0x90]);
    assert_eq!(image[0x210], 0x90);
    match link_pe(&pe_args(Architecture::AArch64), 2, &read).err().unwrap() {
        PeFailure::Link(failure) => {
            assert_eq!(failure.error, LinkError::UnsupportedArchitecture);
        }
        PeFailure::Inputs(_) => panic!("nothing should be read"),
    }
    match link_pe(&pe_args(Architecture::X86_64), 0, &read).err().unwrap() {
        PeFailure::Link(failure) => assert_eq!(failure.error, LinkError::NoInputs),
        PeFailure::Inputs(_) => panic!("there is nothing to read"),
    }
    let missing = files(vec![("a.obj", vec![])]);
    assert!(matches!(
        link_pe(&pe_args(Architecture::X86_64), 1, &missing),
        Err(PeFailure::Inputs(InputFailure::Read(_)))
    ));
}
