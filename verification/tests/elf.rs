use pelink::elf_diff::{
    check_elf_files, check_readable, list_checks, report_arch_specific_diffs, report_from_config,
    run_on_objects, start_report, validate_objects, validation_name, ArchKind, Check,
    ElfDiffError, ElfReportError,
};
use pelink::report::{Diff, DiffValues, Report};
use std::cell::RefCell;

/// The header of a 64-bit little-endian ELF file, and nothing else.
fn elf() -> Vec<u8> {
    let mut data = vec![0; 64];
    data[..7].copy_from_slice(&[0x7F, b'E', b'L', b'F', 2, 1, 1]);
    data[20] = 1;
    data[52] = 64;
    data
}

#[test]
fn elf_files_are_accepted() {
    assert_eq!(check_elf_files(&[elf(), elf()]), Ok(()));
    assert_eq!(check_elf_files(&[]), Ok(()));
    let mut big_endian = elf();
    big_endian[5] = 2;
    assert_eq!(
        check_elf_files(&[elf(), big_endian]),
        Err(ElfDiffError::Parse { file: 1 })
    );
    assert_eq!(
        check_elf_files(&[elf(), elf(), b"MZ".to_vec(), vec![]]),
        Err(ElfDiffError::Parse { file: 2 })
    );
    let mut narrow = elf();
    narrow[4] = 1;
    assert_eq!(check_elf_files(&[narrow]), Err(ElfDiffError::Parse { file: 0 }));
}

#[test]
fn the_first_unreadable_file_is_named() {
    assert_eq!(check_readable(&[]), Ok(()));
    assert_eq!(check_readable(&[true, true]), Ok(()));
    assert_eq!(
        check_readable(&[true, false, false]),
        Err(ElfDiffError::Parse { file: 1 })
    );
}

#[test]
fn two_files_are_needed() {
    assert_eq!(start_report(0).err(), Some(ElfDiffError::TooFewFiles));
    assert_eq!(start_report(1).err(), Some(ElfDiffError::TooFewFiles));
    assert_eq!(start_report(2).unwrap().diffs.len(), 0);
}

#[test]
fn checks_come_in_their_order() {
    let common = [
        Check::ValidateGnuHash,
        Check::ValidateHash,
        Check::ValidateIndexes,
        Check::ValidateGotPlt,
        Check::ValidateSymtab,
        Check::ValidateDynsym,
        Check::DynamicHeaders,
        Check::FileHeaders,
        Check::SectionHeaders,
        Check::EhFrame,
        Check::Versions,
        Check::DebugInfo,
        Check::Symbols,
        Check::Segments,
    ];
    for arch in [ArchKind::X86_64, ArchKind::Aarch64, ArchKind::LoongArch64] {
        let checks = list_checks(arch);
        assert_eq!(checks[..14], common);
        assert_eq!(checks[14..], [Check::Sections(arch), Check::InitOrder(arch)]);
    }
    let checks = list_checks(ArchKind::RISCV64);
    assert_eq!(checks[..14], common);
    assert_eq!(
        checks[14..],
        [
            Check::Sections(ArchKind::RISCV64),
            Check::InitOrder(ArchKind::RISCV64),
            Check::RiscvAttributes,
        ]
    );
    let mut more = vec![Check::Symbols];
    report_arch_specific_diffs(&mut more, ArchKind::Aarch64);
    assert_eq!(
        more,
        vec![
            Check::Symbols,
            Check::Sections(ArchKind::Aarch64),
            Check::InitOrder(ArchKind::Aarch64),
        ]
    );
}

#[test]
fn validations_have_names() {
    let names: Vec<&str> =
        list_checks(ArchKind::X86_64).into_iter().filter_map(validation_name).collect();
    assert_eq!(
        names,
        vec![".gnu.hash", ".hash", "index", ".got.plt", ".symtab", ".dynsym"]
    );
    assert_eq!(validation_name(Check::Segments), None);
}

#[test]
fn outcomes_are_compared() {
    let odd = |n: &u32| if n % 2 == 1 { Ok(()) } else { Err(format!("{n} is even")) };
    let mut report = Report::new();
    validate_objects(&mut report, &[1, 2, 3], "same", odd);
    validate_objects(&mut report, &[2, 2], "same", odd);
    assert_eq!(report.diffs.len(), 0);
    validate_objects(&mut report, &[1, 2, 4], "odd", odd);
    assert_eq!(report.diffs.len(), 1);
    assert_eq!(report.diffs[0].key, "odd");
    let DiffValues::PerObject(values) = &report.diffs[0].values;
    assert_eq!(values, &vec!["OK", "2 is even", "4 is even"]);
}

fn single(key: &str) -> Diff {
    Diff { key: key.to_owned(), values: DiffValues::PerObject(Vec::new()) }
}

fn keys(report: &Report) -> Vec<&str> {
    report.diffs.iter().map(|diff| diff.key.as_str()).collect()
}

#[test]
fn all_checks_add_to_the_report() {
    let made = RefCell::new(Vec::new());
    let validate = |check: Check, object: &u32| {
        made.borrow_mut().push(check);
        match check {
            Check::ValidateHash => Err(format!("hash {object}")),
            _ => Ok(()),
        }
    };
    let compare = |check: Check, objects: &[u32]| {
        made.borrow_mut().push(check);
        match check {
            Check::FileHeaders => vec![single("first"), single("second")],
            Check::RiscvAttributes => vec![single(&format!("last {}", objects.len()))],
            _ => vec![],
        }
    };
    let mut report = Report::new();
    run_on_objects(&mut report, &[1, 2], ArchKind::RISCV64, &validate, &compare);
    assert_eq!(keys(&report), vec![".hash", "first", "second", "last 2"]);
    // Validations look at each of the two files.
    let all = list_checks(ArchKind::RISCV64);
    let expected: Vec<Check> = all
        .iter()
        .flat_map(|check| vec![*check; if validation_name(*check).is_some() { 2 } else { 1 }])
        .collect();
    assert_eq!(*made.borrow(), expected);
}

#[test]
fn elf_files_are_compared() {
    let read_layout = |file: usize| {
        if file < 5 {
            Ok(10 * file)
        } else {
            Err(format!("no layout {file}"))
        }
    };
    let open = |file: usize, layout: &usize| {
        assert_eq!(*layout, 10 * file);
        if file < 3 {
            Ok(file)
        } else {
            Err(format!("no file {file}"))
        }
    };
    let arch_of = |objects: &[usize]| {
        if objects.len() < 3 {
            Ok(ArchKind::X86_64)
        } else {
            Err("mixed".to_owned())
        }
    };
    let validate = |_: Check, _: &usize| Ok(());
    let compare = |check: Check, _: &[usize]| match check {
        Check::Sections(ArchKind::X86_64) => vec![single("ignored"), single("asm")],
        _ => vec![],
    };
    let keeps = |key: &str| key != "ignored";
    let names = |count: usize| (0..count).map(|k| format!("file {k}")).collect::<Vec<String>>();
    let paths = |count: usize| (0..count).collect::<Vec<usize>>();
    let report_on = |files: &[Vec<u8>], num_names: usize, num_paths: usize| {
        report_from_config(
            true,
            files,
            names(num_names),
            paths(num_paths),
            &keeps,
            &read_layout,
            &open,
            &arch_of,
            &validate,
            &compare,
        )
    };
    let report = |count: usize| report_on(&vec![elf(); count], count, count);
    let two = report(2).unwrap();
    assert_eq!(keys(&two.report), vec!["asm"]);
    assert_eq!(two.names, names(2));
    assert_eq!(two.paths, paths(2));
    assert!(two.coverage);
    assert!(matches!(report(1), Err(ElfReportError::Files(ElfDiffError::TooFewFiles))));
    assert!(matches!(report(3), Err(ElfReportError::Arch(reason)) if reason == "mixed"));
    assert!(matches!(
        report(5),
        Err(ElfReportError::Open { file: 3, reason }) if reason == "no file 3"
    ));
    // All layouts are read before a file is opened.
    assert!(matches!(
        report(7),
        Err(ElfReportError::Layout { file: 5, reason }) if reason == "no layout 5"
    ));
    assert!(matches!(
        report_on(&[elf(), vec![1]], 2, 2),
        Err(ElfReportError::Files(ElfDiffError::Parse { file: 1 }))
    ));
    // Only files with a name and a path are compared.
    let shortest = report_on(&vec![elf(); 4], 2, 5).unwrap();
    assert_eq!(shortest.names, names(2));
    assert_eq!(shortest.paths, paths(2));
    assert_eq!(report_on(&vec![elf(); 4], 3, 2).unwrap().names, names(2));
    assert!(matches!(
        report_on(&vec![elf(); 4], 1, 4),
        Err(ElfReportError::Files(ElfDiffError::TooFewFiles))
    ));
    // A layout is read for each path, also for those without a file.
    assert!(matches!(
        report_on(&vec![elf(); 2], 2, 6),
        Err(ElfReportError::Layout { file: 5, reason }) if reason == "no layout 5"
    ));
}
