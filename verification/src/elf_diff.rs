//! Comparison of linked ELF files: which checks are made, and what is reported of them.
use crate::report;
use crate::report::{report_values, Diff, DiffView, FileReport, Report};
use crate::text;
use object::read::elf::ElfFile64;
use object::LittleEndian;
use vstd::prelude::*;

verus! {

/// Processor that the files are for.
#[derive(Clone, Copy, PartialEq, Eq, Debug, Structural)]
pub enum ArchKind {
    X86_64,
    Aarch64,
    RISCV64,
    LoongArch64,
}

/// Why ELF files cannot be compared.
#[derive(Clone, Copy, PartialEq, Eq, Debug, Structural)]
pub enum ElfDiffError {
    /// A file is no 64-bit little-endian ELF file.
    Parse { file: usize },
    /// There are fewer than two files.
    TooFewFiles,
}

// ---- files ----

/// Whether `ElfFile64::parse` accepts the bytes as a little-endian file.
pub uninterp spec fn is_elf(data: Seq<u8>) -> bool;

/// Returns whether the bytes are a 64-bit little-endian ELF file, by `ElfFile64::parse`. It depends
/// on the bytes alone.
#[verifier::external_body]
pub(crate) fn parses_as_elf(data: &[u8]) -> (r: bool)
    ensures
        r == is_elf(data@),
{
    ElfFile64::<LittleEndian>::parse(data).is_ok()
}

/// The first of the files from the `k`-th on that is no ELF file.
pub open spec fn first_unreadable(readable: Seq<bool>, k: int) -> Option<usize>
    decreases readable.len() - k,
{
    if k < 0 || k >= readable.len() {
        None
    } else if !readable[k] {
        Some(k as usize)
    } else {
        first_unreadable(readable, k + 1)
    }
}

/// Returns an error for the first file that is not readable.
pub fn check_readable(readable: &[bool]) -> (r: Result<(), ElfDiffError>)
    ensures
        r == (match first_unreadable(readable@, 0) {
            Some(file) => Err::<(), ElfDiffError>(ElfDiffError::Parse { file }),
            None => Ok(()),
        }),
{
    let mut k: usize = 0;
    while k < readable.len()
        invariant
            k <= readable@.len(),
            first_unreadable(readable@, 0) == first_unreadable(readable@, k as int),
        decreases readable@.len() - k,
    {
        if !readable[k] {
            return Err(ElfDiffError::Parse { file: k });
        }
        k += 1;
    }
    Ok(())
}

/// Whether each of the files is an ELF file.
pub open spec fn readable_files(files: Seq<Vec<u8>>) -> Seq<bool> {
    Seq::new(files.len(), |k: int| is_elf(files[k]@))
}

/// Returns an error for the first file that is no ELF file.
pub fn check_elf_files(files: &[Vec<u8>]) -> (r: Result<(), ElfDiffError>)
    ensures
        r == (match first_unreadable(readable_files(files@), 0) {
            Some(file) => Err::<(), ElfDiffError>(ElfDiffError::Parse { file }),
            None => Ok(()),
        }),
{
    let mut readable: Vec<bool> = Vec::new();
    let mut k: usize = 0;
    while k < files.len()
        invariant
            k <= files@.len(),
            readable@ == readable_files(files@).take(k as int),
        decreases files@.len() - k,
    {
        readable.push(parses_as_elf(files[k].as_slice()));
        assert(readable@ =~= readable_files(files@).take(k + 1));
        k += 1;
    }
    assert(readable@ =~= readable_files(files@));
    check_readable(readable.as_slice())
}

/// Returns an empty report on so many files, if there are at least two to compare.
pub fn start_report(num_objects: usize) -> (r: Result<Report, ElfDiffError>)
    ensures
        match r {
            Ok(report) => num_objects >= 2 && report@.len() == 0,
            Err(e) => num_objects < 2 && e == ElfDiffError::TooFewFiles,
        },
{
    if num_objects < 2 {
        Err(ElfDiffError::TooFewFiles)
    } else {
        Ok(Report::new())
    }
}

// ---- checks ----

/// A check that is made on the files.
#[derive(Clone, Copy, PartialEq, Eq, Debug, Structural)]
pub enum Check {
    ValidateGnuHash,
    ValidateHash,
    ValidateIndexes,
    ValidateGotPlt,
    ValidateSymtab,
    ValidateDynsym,
    DynamicHeaders,
    FileHeaders,
    SectionHeaders,
    EhFrame,
    Versions,
    DebugInfo,
    Symbols,
    Segments,
    /// The contents of the sections, instruction by instruction.
    Sections(ArchKind),
    /// The order of the initialisers.
    InitOrder(ArchKind),
    RiscvAttributes,
}

/// The checks that do not depend on the processor, in the order in which they are made.
pub open spec fn common_checks() -> Seq<Check> {
    seq![
        Check::ValidateGnuHash,
        Check::ValidateHash,
        Check::ValidateIndexes,
        Check::ValidateGotPlt,
        Check::ValidateSymtab,
        Check::ValidateDynsym,
        Check::DynamicHeaders,
        Check::FileHeaders,
        Check::SectionHeaders,
        Check::EhFrame,
        Check::Versions,
        Check::DebugInfo,
        Check::Symbols,
        Check::Segments,
    ]
}

/// The checks that depend on the processor, in the order in which they are made.
pub open spec fn arch_checks(arch: ArchKind) -> Seq<Check> {
    seq![Check::Sections(arch), Check::InitOrder(arch)] + (if arch == ArchKind::RISCV64 {
        seq![Check::RiscvAttributes]
    } else {
        Seq::empty()
    })
}

/// The checks that are made on files for a processor, in the order in which they are made.
pub open spec fn all_checks(arch: ArchKind) -> Seq<Check> {
    common_checks() + arch_checks(arch)
}

/// Appends the checks that depend on the processor.
pub fn report_arch_specific_diffs(checks: &mut Vec<Check>, arch: ArchKind)
    ensures
        final(checks)@ == old(checks)@ + seq![Check::Sections(arch), Check::InitOrder(arch)],
{
    let ghost before = checks@;
    checks.push(Check::Sections(arch));
    checks.push(Check::InitOrder(arch));
    assert(checks@ =~= before + seq![Check::Sections(arch), Check::InitOrder(arch)]);
}

/// Returns the checks that are made on files for a processor, in the order in which they are made.
pub fn list_checks(arch: ArchKind) -> (checks: Vec<Check>)
    ensures
        checks@ == all_checks(arch),
{
    let mut checks: Vec<Check> = Vec::new();
    checks.push(Check::ValidateGnuHash);
    checks.push(Check::ValidateHash);
    checks.push(Check::ValidateIndexes);
    checks.push(Check::ValidateGotPlt);
    checks.push(Check::ValidateSymtab);
    checks.push(Check::ValidateDynsym);
    checks.push(Check::DynamicHeaders);
    checks.push(Check::FileHeaders);
    checks.push(Check::SectionHeaders);
    checks.push(Check::EhFrame);
    checks.push(Check::Versions);
    checks.push(Check::DebugInfo);
    checks.push(Check::Symbols);
    checks.push(Check::Segments);
    assert(checks@ =~= common_checks());
    report_arch_specific_diffs(&mut checks, arch);
    match arch {
        ArchKind::RISCV64 => {
            checks.push(Check::RiscvAttributes);
        },
        ArchKind::X86_64 | ArchKind::Aarch64 | ArchKind::LoongArch64 => {},
    }
    assert(checks@ =~= all_checks(arch));
    checks
}

/// The key under which a validation is reported; checks that are no validation have none.
pub open spec fn validation_key(check: Check) -> Option<Seq<char>> {
    match check {
        Check::ValidateGnuHash => Some(".gnu.hash"@),
        Check::ValidateHash => Some(".hash"@),
        Check::ValidateIndexes => Some("index"@),
        Check::ValidateGotPlt => Some(".got.plt"@),
        Check::ValidateSymtab => Some(".symtab"@),
        Check::ValidateDynsym => Some(".dynsym"@),
        _ => None,
    }
}

/// Returns the key under which a validation is reported.
pub fn validation_name(check: Check) -> (name: Option<&'static str>)
    ensures
        match (name, validation_key(check)) {
            (Some(n), Some(key)) => n@ == key,
            (None, None) => true,
            _ => false,
        },
{
    match check {
        Check::ValidateGnuHash => Some(".gnu.hash"),
        Check::ValidateHash => Some(".hash"),
        Check::ValidateIndexes => Some("index"),
        Check::ValidateGotPlt => Some(".got.plt"),
        Check::ValidateSymtab => Some(".symtab"),
        Check::ValidateDynsym => Some(".dynsym"),
        _ => None,
    }
}

/// The text of the outcome of a validation.
pub open spec fn outcome_text(outcome: Result<(), String>) -> Seq<char> {
    match outcome {
        Ok(_) => "OK"@,
        Err(e) => e@,
    }
}

/// Whether the text is that of an outcome that the validation has for the object.
pub open spec fn is_outcome<T, F: Fn(&T) -> Result<(), String>>(
    value: Seq<char>,
    object: T,
    validation_fn: F,
) -> bool {
    exists|outcome: Result<(), String>|
        #[trigger] call_ensures(validation_fn, (&object,), outcome) && value == outcome_text(
            outcome,
        )
}

/// Whether the texts are those of the outcomes of the validation.
pub open spec fn are_outcomes<T, F: Fn(&T) -> Result<(), String>>(
    values: Seq<Seq<char>>,
    objects: Seq<T>,
    validation_fn: F,
) -> bool {
    &&& values.len() == objects.len()
    &&& forall|k: int|
        0 <= k < objects.len() ==> #[trigger] is_outcome(values[k], objects[k], validation_fn)
}

/// Validates each of the objects and adds a difference, unless the outcome for the first of them is
/// equal to that for any other.
pub fn validate_objects<T, F: Fn(&T) -> Result<(), String>>(
    report: &mut Report,
    objects: &[T],
    validation_name: &str,
    validation_fn: F,
)
    requires
        objects@.len() > 0,
        forall|k: int|
            0 <= k < objects@.len() ==> call_requires(
                validation_fn,
                (&#[trigger] objects@[k],),
            ),
    ensures
        exists|values: Seq<Seq<char>>|
            #[trigger] are_outcomes(values, objects@, validation_fn) && final(report)@
                == report::with_values(old(report)@, validation_name@, values),
{
    let mut values: Vec<String> = Vec::new();
    let mut k: usize = 0;
    while k < objects.len()
        invariant
            k <= objects@.len(),
            values@.len() == k,
            forall|k: int|
                0 <= k < objects@.len() ==> call_requires(
                    validation_fn,
                    (&#[trigger] objects@[k],),
                ),
            forall|l: int|
                0 <= l < k ==> #[trigger] is_outcome(values@[l]@, objects@[l], validation_fn),
        decreases objects@.len() - k,
    {
        let outcome = validation_fn(&objects[k]);
        let ghost given = outcome;
        let value = match outcome {
            Ok(_) => "OK".to_owned(),
            Err(e) => e,
        };
        assert(call_ensures(validation_fn, (&objects@[k as int],), given));
        assert(is_outcome(value@, objects@[k as int], validation_fn));
        values.push(value);
        k += 1;
    }
    assert forall|l: int| 0 <= l < objects@.len() implies #[trigger] is_outcome(
        text::texts(values@)[l],
        objects@[l],
        validation_fn,
    ) by {
        assert(is_outcome(values@[l]@, objects@[l], validation_fn));
    }
    assert(are_outcomes(text::texts(values@), objects@, validation_fn));
    report_values(report, validation_name, values);
}

// ---- all checks ----

/// Whether the texts are those of the outcomes of the validation `check`.
pub open spec fn are_check_outcomes<T, V: Fn(Check, &T) -> Result<(), String>>(
    values: Seq<Seq<char>>,
    objects: Seq<T>,
    check: Check,
    validate: V,
) -> bool {
    &&& values.len() == objects.len()
    &&& forall|k: int|
        0 <= k < objects.len() ==> #[trigger] is_check_outcome(
            values[k],
            objects[k],
            check,
            validate,
        )
}

/// Whether the text is that of an outcome that the validation `check` has for the object.
pub open spec fn is_check_outcome<T, V: Fn(Check, &T) -> Result<(), String>>(
    value: Seq<char>,
    object: T,
    check: Check,
    validate: V,
) -> bool {
    exists|outcome: Result<(), String>|
        #[trigger] call_ensures(validate, (check, &object), outcome) && value == outcome_text(
            outcome,
        )
}

/// The models of a list of differences.
pub open spec fn diff_views(diffs: Seq<Diff>) -> Seq<DiffView> {
    Seq::new(diffs.len(), |k: int| diffs[k]@)
}

/// Whether a check makes one report of another: a validation adds at most one difference, any
/// other check adds what it finds.
pub open spec fn is_step<
    T,
    V: Fn(Check, &T) -> Result<(), String>,
    C: Fn(Check, &[T]) -> Vec<Diff>,
>(
    before: Seq<DiffView>,
    after: Seq<DiffView>,
    check: Check,
    objects: &[T],
    validate: V,
    compare: C,
) -> bool {
    match validation_key(check) {
        Some(key) => exists|values: Seq<Seq<char>>|
            #[trigger] are_check_outcomes(values, objects@, check, validate) && after
                == report::with_values(before, key, values),
        None => exists|diffs: Vec<Diff>|
            #[trigger] call_ensures(compare, (check, objects), diffs) && after == before
                + diff_views(diffs@),
    }
}

/// Whether the reports are those after no check, the first one, the first two, and so on.
pub open spec fn are_steps<
    T,
    V: Fn(Check, &T) -> Result<(), String>,
    C: Fn(Check, &[T]) -> Vec<Diff>,
>(reports: Seq<Seq<DiffView>>, checks: Seq<Check>, objects: &[T], validate: V, compare: C) -> bool {
    &&& reports.len() == checks.len() + 1
    &&& forall|k: int|
        0 <= k < checks.len() ==> is_step(
            reports[k],
            reports[k + 1],
            #[trigger] checks[k],
            objects,
            validate,
            compare,
        )
}

/// Adds differences to a report.
fn add_diffs(report: &mut Report, diffs: Vec<Diff>)
    ensures
        final(report)@ == old(report)@ + diff_views(diffs@),
{
    let ghost before = report@;
    let mut more = diffs;
    report.diffs.append(&mut more);
    assert(report@ =~= before + diff_views(diffs@));
}

/// Makes one check.
fn run_check<T, V: Fn(Check, &T) -> Result<(), String>, C: Fn(Check, &[T]) -> Vec<Diff>>(
    report: &mut Report,
    objects: &[T],
    check: Check,
    validate: &V,
    compare: &C,
)
    requires
        objects@.len() > 0,
        forall|check: Check, object: &T|
            validation_key(check) is Some ==> #[trigger] call_requires(validate, (check, object)),
        forall|check: Check|
            validation_key(check) is None ==> #[trigger] call_requires(compare, (check, objects)),
    ensures
        is_step(old(report)@, final(report)@, check, objects, *validate, *compare),
{
    match validation_name(check) {
        Some(name) => {
            let validation_fn = |object: &T| -> (r: Result<(), String>)
                requires
                    call_requires(validate, (check, object)),
                ensures
                    call_ensures(validate, (check, object), r),
                { validate(check, object) };
            validate_objects(report, objects, name, validation_fn);
            proof {
                let values = choose|values: Seq<Seq<char>>|
                    #[trigger] are_outcomes(values, objects@, validation_fn) && report@
                        == report::with_values(old(report)@, name@, values);
                assert forall|k: int| 0 <= k < objects@.len() implies #[trigger] is_check_outcome(
                    values[k],
                    objects@[k],
                    check,
                    *validate,
                ) by {
                    assert(is_outcome(values[k], objects@[k], validation_fn));
                }
                assert(are_check_outcomes(values, objects@, check, *validate));
            }
        },
        None => {
            let diffs = compare(check, objects);
            let ghost given = diffs;
            add_diffs(report, diffs);
            assert(call_ensures(compare, (check, objects), given));
        },
    }
}

/// Makes all checks on files for a processor, one after the other.
pub fn run_on_objects<T, V: Fn(Check, &T) -> Result<(), String>, C: Fn(Check, &[T]) -> Vec<Diff>>(
    report: &mut Report,
    objects: &[T],
    arch: ArchKind,
    validate: &V,
    compare: &C,
)
    requires
        objects@.len() > 0,
        forall|check: Check, object: &T|
            validation_key(check) is Some ==> #[trigger] call_requires(validate, (check, object)),
        forall|check: Check|
            validation_key(check) is None ==> #[trigger] call_requires(compare, (check, objects)),
    ensures
        exists|reports: Seq<Seq<DiffView>>|
            #[trigger] are_steps(reports, all_checks(arch), objects, *validate, *compare)
                && reports[0] == old(report)@ && reports.last() == final(report)@,
{
    let checks = list_checks(arch);
    let ghost mut reports: Seq<Seq<DiffView>> = seq![report@];
    let mut n: usize = 0;
    while n < checks.len()
        invariant
            n <= checks@.len(),
            objects@.len() > 0,
            forall|check: Check, object: &T|
                validation_key(check) is Some ==> #[trigger] call_requires(validate, (check, object)),
            forall|check: Check|
                validation_key(check) is None ==> #[trigger] call_requires(compare, (check, objects)),
            are_steps(reports, checks@.take(n as int), objects, *validate, *compare),
            reports[0] == old(report)@,
            reports.last() == report@,
        decreases checks@.len() - n,
    {
        run_check(report, objects, checks[n], validate, compare);
        proof {
            let before = reports;
            let done = checks@.take(n + 1);
            reports = reports.push(report@);
            assert forall|k: int| 0 <= k < done.len() implies is_step(
                reports[k],
                reports[k + 1],
                #[trigger] done[k],
                objects,
                *validate,
                *compare,
            ) by {
                if k < n {
                    assert(checks@.take(n as int)[k] == done[k]);
                }
            }
        }
        n += 1;
    }
    assert(checks@.take(n as int) =~= all_checks(arch));
}

/// Why there is no report on ELF files.
#[derive(Debug)]
pub enum ElfReportError {
    /// The files cannot be compared.
    Files(ElfDiffError),
    /// The layout that belongs to a file cannot be read, for this reason.
    Layout { file: usize, reason: String },
    /// A file cannot be opened, for this reason.
    Open { file: usize, reason: String },
    /// The processor is not known, for this reason.
    Arch(String),
}

/// Whether the layouts are those that were read for the first files.
pub open spec fn are_read<L, Y: Fn(usize) -> Result<L, String>>(
    layouts: Seq<L>,
    read_layout: Y,
) -> bool {
    forall|k: int|
        0 <= k < layouts.len() ==> call_ensures(
            read_layout,
            (k as usize,),
            Ok::<L, String>(#[trigger] layouts[k]),
        )
}

/// Whether the objects are what was opened of the first files.
pub open spec fn are_opened<L, T, O: Fn(usize, &L) -> Result<T, String>>(
    objects: Seq<T>,
    layouts: Seq<L>,
    open: O,
) -> bool {
    forall|k: int|
        0 <= k < objects.len() ==> call_ensures(
            open,
            (k as usize, &layouts[k]),
            Ok::<T, String>(#[trigger] objects[k]),
        )
}

/// Whether the report is what all checks make of an empty one.
pub open spec fn is_full_report<
    T,
    V: Fn(Check, &T) -> Result<(), String>,
    C: Fn(Check, &[T]) -> Vec<Diff>,
>(report: Seq<DiffView>, arch: ArchKind, objects: &[T], validate: V, compare: C) -> bool {
    exists|reports: Seq<Seq<DiffView>>|
        #[trigger] are_steps(reports, all_checks(arch), objects, validate, compare) && reports[0]
            == Seq::<DiffView>::empty() && reports.last() == report
}

/// Whether this is what comes of readable files, if the layouts are those that were read and the
/// objects are what was opened: so many layouts are read one by one, until one cannot be; then so
/// many files are opened one by one, until one cannot be; then there have to be at least two, and
/// the processor has to be known.
pub open spec fn comparison_ends<
    L,
    T,
    Y: Fn(usize) -> Result<L, String>,
    O: Fn(usize, &L) -> Result<T, String>,
    A: Fn(&[T]) -> Result<ArchKind, String>,
    V: Fn(Check, &T) -> Result<(), String>,
    C: Fn(Check, &[T]) -> Vec<Diff>,
>(
    num_layouts: int,
    num_objects: int,
    layouts: Seq<L>,
    objects: &[T],
    read_layout: Y,
    open: O,
    arch_of: A,
    validate: V,
    compare: C,
    r: Result<Seq<DiffView>, ElfReportError>,
) -> bool {
    let n = objects@.len();
    &&& n <= num_objects
    &&& n <= layouts.len() <= num_layouts
    &&& are_read(layouts, read_layout)
    &&& are_opened(objects@, layouts, open)
    &&& match r {
        Err(ElfReportError::Layout { file, reason }) => {
            &&& n == 0
            &&& file == layouts.len()
            &&& file < num_layouts
            &&& call_ensures(read_layout, (file,), Err::<L, String>(reason))
        },
        Err(ElfReportError::Open { file, reason }) => {
            &&& layouts.len() == num_layouts
            &&& file == n
            &&& file < num_objects
            &&& call_ensures(open, (file, &layouts[file as int]), Err::<T, String>(reason))
        },
        Err(ElfReportError::Files(error)) => {
            &&& layouts.len() == num_layouts
            &&& n == num_objects
            &&& num_objects < 2
            &&& error == ElfDiffError::TooFewFiles
        },
        Err(ElfReportError::Arch(reason)) => {
            &&& layouts.len() == num_layouts
            &&& n == num_objects
            &&& num_objects >= 2
            &&& call_ensures(arch_of, (objects,), Err::<ArchKind, String>(reason))
        },
        Ok(diffs) => {
            &&& layouts.len() == num_layouts
            &&& n == num_objects
            &&& num_objects >= 2
            &&& exists|arch: ArchKind|
                #[trigger] call_ensures(arch_of, (objects,), Ok::<ArchKind, String>(arch))
                    && is_full_report(diffs, arch, objects, validate, compare)
        },
    }
}

/// Reads so many layouts, one by one, until one cannot be read.
fn read_layouts<L, Y: Fn(usize) -> Result<L, String>>(num_layouts: usize, read_layout: &Y) -> (r: (
    Vec<L>,
    Option<String>,
))
    requires
        forall|k: usize| k < num_layouts ==> #[trigger] call_requires(read_layout, (k,)),
    ensures
        are_read(r.0@, *read_layout),
        match r.1 {
            None => r.0@.len() == num_layouts,
            Some(reason) => r.0@.len() < num_layouts && call_ensures(
                read_layout,
                (r.0@.len() as usize,),
                Err::<L, String>(reason),
            ),
        },
{
    let mut layouts: Vec<L> = Vec::new();
    let mut n: usize = 0;
    while n < num_layouts
        invariant
            n <= num_layouts,
            layouts@.len() == n,
            forall|k: usize| k < num_layouts ==> #[trigger] call_requires(read_layout, (k,)),
            are_read(layouts@, *read_layout),
        decreases num_layouts - n,
    {
        match read_layout(n) {
            Ok(layout) => {
                let ghost before = layouts@;
                layouts.push(layout);
                assert forall|k: int| 0 <= k < layouts@.len() implies call_ensures(
                    read_layout,
                    (k as usize,),
                    Ok::<L, String>(#[trigger] layouts@[k]),
                ) by {
                    if k < n {
                        assert(before[k] == layouts@[k]);
                    }
                }
            },
            Err(reason) => return (layouts, Some(reason)),
        }
        n += 1;
    }
    (layouts, None)
}

/// Opens so many files, one by one, until one cannot be opened.
fn open_files<L, T, O: Fn(usize, &L) -> Result<T, String>>(
    num_objects: usize,
    layouts: &Vec<L>,
    open: &O,
) -> (r: (Vec<T>, Option<String>))
    requires
        num_objects <= layouts@.len(),
        forall|k: usize, layout: &L|
            k < num_objects ==> #[trigger] call_requires(open, (k, layout)),
    ensures
        are_opened(r.0@, layouts@, *open),
        match r.1 {
            None => r.0@.len() == num_objects,
            Some(reason) => r.0@.len() < num_objects && call_ensures(
                open,
                (r.0@.len() as usize, &layouts@[r.0@.len() as int]),
                Err::<T, String>(reason),
            ),
        },
{
    let mut opened: Vec<T> = Vec::new();
    let mut n: usize = 0;
    while n < num_objects
        invariant
            n <= num_objects,
            num_objects <= layouts@.len(),
            opened@.len() == n,
            forall|k: usize, layout: &L|
                k < num_objects ==> #[trigger] call_requires(open, (k, layout)),
            are_opened(opened@, layouts@, *open),
        decreases num_objects - n,
    {
        match open(n, &layouts[n]) {
            Ok(object) => {
                let ghost before = opened@;
                opened.push(object);
                assert forall|k: int| 0 <= k < opened@.len() implies call_ensures(
                    open,
                    (k as usize, &layouts@[k]),
                    Ok::<T, String>(#[trigger] opened@[k]),
                ) by {
                    if k < n {
                        assert(before[k] == opened@[k]);
                    }
                }
            },
            Err(reason) => return (opened, Some(reason)),
        }
        n += 1;
    }
    (opened, None)
}

/// The model of what a comparison returns.
pub open spec fn result_view(r: Result<Report, ElfReportError>) -> Result<
    Seq<DiffView>,
    ElfReportError,
> {
    match r {
        Ok(report) => Ok(report@),
        Err(e) => Err(e),
    }
}

/// Returns all that differs between ELF files, all of which are readable.
fn compare_files<
    L,
    T,
    Y: Fn(usize) -> Result<L, String>,
    O: Fn(usize, &L) -> Result<T, String>,
    A: Fn(&[T]) -> Result<ArchKind, String>,
    V: Fn(Check, &T) -> Result<(), String>,
    C: Fn(Check, &[T]) -> Vec<Diff>,
>(
    num_layouts: usize,
    num_objects: usize,
    read_layout: &Y,
    open: &O,
    arch_of: &A,
    validate: &V,
    compare: &C,
) -> (r: Result<Report, ElfReportError>)
    requires
        num_objects <= num_layouts,
        forall|k: usize| k < num_layouts ==> #[trigger] call_requires(read_layout, (k,)),
        forall|k: usize, layout: &L|
            k < num_objects ==> #[trigger] call_requires(open, (k, layout)),
        forall|objects: &[T]|
            objects@.len() >= 2 ==> #[trigger] call_requires(arch_of, (objects,)),
        forall|check: Check, object: &T|
            validation_key(check) is Some ==> #[trigger] call_requires(validate, (check, object)),
        forall|check: Check, objects: &[T]|
            validation_key(check) is None && objects@.len() >= 2 ==> #[trigger] call_requires(
                compare,
                (check, objects),
            ),
    ensures
        exists|layouts: Seq<L>, objects: &[T]| #[trigger]
            comparison_ends(
                num_layouts as int,
                num_objects as int,
                layouts,
                objects,
                *read_layout,
                *open,
                *arch_of,
                *validate,
                *compare,
                result_view(r),
            ),
{
    let (layouts, unread) = read_layouts(num_layouts, read_layout);
    if let Some(reason) = unread {
        let nothing: Vec<T> = Vec::new();
        let objects = nothing.as_slice();
        let r = Err(ElfReportError::Layout { file: layouts.len(), reason });
        assert(comparison_ends(
            num_layouts as int,
            num_objects as int,
            layouts@,
            objects,
            *read_layout,
            *open,
            *arch_of,
            *validate,
            *compare,
            result_view(r),
        ));
        return r;
    }
    let (opened, unopened) = open_files(num_objects, &layouts, open);
    let objects = opened.as_slice();
    let r = match unopened {
        Some(reason) => Err(ElfReportError::Open { file: opened.len(), reason }),
        None => compare_objects(objects, arch_of, validate, compare),
    };
    assert(comparison_ends(
        num_layouts as int,
        num_objects as int,
        layouts@,
        objects,
        *read_layout,
        *open,
        *arch_of,
        *validate,
        *compare,
        result_view(r),
    ));
    r
}

/// Whether this is what is reported of the first `n` files: their names, their paths, and those of
/// the differences that are kept.
pub open spec fn is_shown<P, K: Fn(&str) -> bool>(
    all: Result<Seq<DiffView>, ElfReportError>,
    names: Seq<String>,
    paths: Seq<P>,
    n: int,
    coverage: bool,
    keeps: K,
    r: Result<FileReport<P>, ElfReportError>,
) -> bool {
    match all {
        Err(error) => r == Err::<FileReport<P>, ElfReportError>(error),
        Ok(diffs) => {
            &&& r matches Ok(found)
            &&& found.names@ == names.take(n)
            &&& found.paths@ == paths.take(n)
            &&& found.coverage == coverage
            &&& report::is_kept_part(keeps, diffs, found.report@)
        },
    }
}

/// The number of files that have contents, a name and a path.
pub open spec fn num_complete(num_files: int, num_names: int, num_paths: int) -> int {
    if num_files <= num_names && num_files <= num_paths {
        num_files
    } else if num_names <= num_paths {
        num_names
    } else {
        num_paths
    }
}

/// Returns the differences between ELF files that are kept, with the names and the paths of the
/// files. A layout is read for each path; those files are compared that have contents, a name and a
/// path.
pub fn report_from_config<
    P,
    L,
    T,
    K: Fn(&str) -> bool,
    Y: Fn(usize) -> Result<L, String>,
    O: Fn(usize, &L) -> Result<T, String>,
    A: Fn(&[T]) -> Result<ArchKind, String>,
    V: Fn(Check, &T) -> Result<(), String>,
    C: Fn(Check, &[T]) -> Vec<Diff>,
>(
    coverage: bool,
    files: &[Vec<u8>],
    names: Vec<String>,
    paths: Vec<P>,
    keeps: &K,
    read_layout: &Y,
    open: &O,
    arch_of: &A,
    validate: &V,
    compare: &C,
) -> (r: Result<FileReport<P>, ElfReportError>)
    requires
        forall|key: &str| call_requires(keeps, (key,)),
        forall|k: usize| k < paths@.len() ==> #[trigger] call_requires(read_layout, (k,)),
        forall|k: usize, layout: &L|
            k < files@.len() && k < names@.len() && k < paths@.len()
                ==> #[trigger] call_requires(open, (k, layout)),
        forall|objects: &[T]|
            objects@.len() >= 2 ==> #[trigger] call_requires(arch_of, (objects,)),
        forall|check: Check, object: &T|
            validation_key(check) is Some ==> #[trigger] call_requires(validate, (check, object)),
        forall|check: Check, objects: &[T]|
            validation_key(check) is None && objects@.len() >= 2 ==> #[trigger] call_requires(
                compare,
                (check, objects),
            ),
    ensures
        match first_unreadable(readable_files(files@), 0) {
            Some(file) => r == Err::<FileReport<P>, ElfReportError>(
                ElfReportError::Files(ElfDiffError::Parse { file }),
            ),
            None => {
                let n = num_complete(
                    files@.len() as int,
                    names@.len() as int,
                    paths@.len() as int,
                );
                exists|
                    layouts: Seq<L>,
                    objects: &[T],
                    all: Result<Seq<DiffView>, ElfReportError>,
                |
                    #[trigger] comparison_ends(
                        paths@.len() as int,
                        n,
                        layouts,
                        objects,
                        *read_layout,
                        *open,
                        *arch_of,
                        *validate,
                        *compare,
                        all,
                    ) && is_shown(all, names@, paths@, n, coverage, *keeps, r)
            },
        },
{
    match check_elf_files(files) {
        Ok(()) => {},
        Err(error) => return Err(ElfReportError::Files(error)),
    }
    let mut num_objects: usize = files.len();
    if names.len() < num_objects {
        num_objects = names.len();
    }
    if paths.len() < num_objects {
        num_objects = paths.len();
    }
    assert(num_objects == num_complete(
        files@.len() as int,
        names@.len() as int,
        paths@.len() as int,
    ));
    let compared = compare_files(
        paths.len(),
        num_objects,
        read_layout,
        open,
        arch_of,
        validate,
        compare,
    );
    let ghost all = result_view(compared);
    let mut report = match compared {
        Ok(report) => report,
        Err(error) => {
            let r = Err(error);
            assert(is_shown(all, names@, paths@, num_objects as int, coverage, *keeps, r));
            return r;
        },
    };
    report.keep(keeps);
    let mut shown_names = names;
    shown_names.truncate(num_objects);
    let mut shown_paths = paths;
    shown_paths.truncate(num_objects);
    let r = Ok(FileReport { names: shown_names, paths: shown_paths, coverage, report });
    assert(is_shown(all, names@, paths@, num_objects as int, coverage, *keeps, r));
    r
}

/// Returns what differs between the objects, if there are at least two of them.
fn compare_objects<
    T,
    A: Fn(&[T]) -> Result<ArchKind, String>,
    V: Fn(Check, &T) -> Result<(), String>,
    C: Fn(Check, &[T]) -> Vec<Diff>,
>(objects: &[T], arch_of: &A, validate: &V, compare: &C) -> (r: Result<Report, ElfReportError>)
    requires
        forall|objects: &[T]|
            objects@.len() >= 2 ==> #[trigger] call_requires(arch_of, (objects,)),
        forall|check: Check, object: &T|
            validation_key(check) is Some ==> #[trigger] call_requires(validate, (check, object)),
        forall|check: Check, objects: &[T]|
            validation_key(check) is None && objects@.len() >= 2 ==> #[trigger] call_requires(
                compare,
                (check, objects),
            ),
    ensures
        match r {
            Err(ElfReportError::Files(error)) => objects@.len() < 2 && error
                == ElfDiffError::TooFewFiles,
            Err(ElfReportError::Arch(reason)) => objects@.len() >= 2 && call_ensures(
                arch_of,
                (objects,),
                Err::<ArchKind, String>(reason),
            ),
            Err(ElfReportError::Layout { .. }) => false,
            Err(ElfReportError::Open { .. }) => false,
            Ok(report) => objects@.len() >= 2 && exists|arch: ArchKind|
                #[trigger] call_ensures(arch_of, (objects,), Ok::<ArchKind, String>(arch))
                    && is_full_report(report@, arch, objects, *validate, *compare),
        },
{
    let mut report = match start_report(objects.len()) {
        Ok(report) => report,
        Err(error) => return Err(ElfReportError::Files(error)),
    };
    assert(report@ =~= Seq::<DiffView>::empty());
    let arch = match arch_of(objects) {
        Ok(arch) => arch,
        Err(reason) => return Err(ElfReportError::Arch(reason)),
    };
    run_on_objects(&mut report, objects, arch, validate, compare);
    assert(is_full_report(report@, arch, objects, *validate, *compare));
    Ok(report)
}

} // verus!
