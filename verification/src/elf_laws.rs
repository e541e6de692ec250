//! What holds of every comparison of ELF files.
use crate::compare_laws;
use crate::elf_diff;
use crate::elf_diff::{ArchKind, Check, ElfDiffError, ElfReportError};
use crate::report;
use crate::report::{Diff, DiffView, FileReport};
use vstd::prelude::*;

verus! {

/// The checks are made in this order; those of the instructions and of the initialisers are made
/// for the processor of the files, and the attributes are compared for RISC-V only.
pub proof fn checks_come_in_order(arch: ArchKind)
    ensures
        ({
            let checks = elf_diff::all_checks(arch);
            &&& checks.len() == (if arch == ArchKind::RISCV64 {
                17
            } else {
                16int
            })
            &&& checks[0] == Check::ValidateGnuHash
            &&& checks[1] == Check::ValidateHash
            &&& checks[2] == Check::ValidateIndexes
            &&& checks[3] == Check::ValidateGotPlt
            &&& checks[4] == Check::ValidateSymtab
            &&& checks[5] == Check::ValidateDynsym
            &&& checks[6] == Check::DynamicHeaders
            &&& checks[7] == Check::FileHeaders
            &&& checks[8] == Check::SectionHeaders
            &&& checks[9] == Check::EhFrame
            &&& checks[10] == Check::Versions
            &&& checks[11] == Check::DebugInfo
            &&& checks[12] == Check::Symbols
            &&& checks[13] == Check::Segments
            &&& checks[14] == Check::Sections(arch)
            &&& checks[15] == Check::InitOrder(arch)
            &&& arch == ArchKind::RISCV64 ==> checks[16] == Check::RiscvAttributes
        }),
{
}

/// Validations are reported under the names of the sections that they look at; all other checks
/// have no key of their own.
pub proof fn validations_have_keys(check: Check)
    ensures
        elf_diff::validation_key(check) == (match check {
            Check::ValidateGnuHash => Some(".gnu.hash"@),
            Check::ValidateHash => Some(".hash"@),
            Check::ValidateIndexes => Some("index"@),
            Check::ValidateGotPlt => Some(".got.plt"@),
            Check::ValidateSymtab => Some(".symtab"@),
            Check::ValidateDynsym => Some(".dynsym"@),
            _ => None,
        }),
{
}

/// A validation adds a difference exactly if the outcome for the first file is equal to that for no
/// other: one value for each file, `OK` where the file is valid and the reason where it is not.
pub proof fn validations_report_what_differs<
    T,
    V: Fn(Check, &T) -> Result<(), String>,
    C: Fn(Check, &[T]) -> Vec<Diff>,
>(
    before: Seq<DiffView>,
    after: Seq<DiffView>,
    check: Check,
    objects: &[T],
    validate: V,
    compare: C,
    outcome: spec_fn(T) -> Result<(), Seq<char>>,
)
    requires
        elf_diff::validation_key(check) is Some,
        elf_diff::is_step(before, after, check, objects, validate, compare),
        forall|object: &T, r: Result<(), String>| #[trigger]
            call_ensures(validate, (check, object), r) ==> match r {
                Ok(_) => outcome(*object) is Ok,
                Err(e) => outcome(*object) == Err::<(), Seq<char>>(e@),
            },
    ensures
        ({
            let values = Seq::new(
                objects@.len(),
                |k: int|
                    match outcome(objects@[k]) {
                        Ok(_) => "OK"@,
                        Err(e) => e,
                    },
            );
            after == (if compare_laws::is_alone(values) {
                before.push(DiffView { key: elf_diff::validation_key(check)->0, values })
            } else {
                before
            })
        }),
{
    let key = elf_diff::validation_key(check)->0;
    let expected = Seq::new(
        objects@.len(),
        |k: int|
            match outcome(objects@[k]) {
                Ok(_) => "OK"@,
                Err(e) => e,
            },
    );
    let values = choose|values: Seq<Seq<char>>|
        #[trigger] elf_diff::are_check_outcomes(values, objects@, check, validate) && after
            == report::with_values(before, key, values);
    assert forall|k: int| 0 <= k < objects@.len() implies #[trigger] values[k] == expected[k] by {
        assert(elf_diff::is_check_outcome(values[k], objects@[k], check, validate));
        let r = choose|r: Result<(), String>|
            #[trigger] call_ensures(validate, (check, &objects@[k]), r) && values[k]
                == elf_diff::outcome_text(r);
    }
    assert(values =~= expected);
    assert(report::first_recurs(values) == !compare_laws::is_alone(values));
}

/// Any other check adds what it finds, behind what was reported before.
pub proof fn other_checks_add_what_they_find<
    T,
    V: Fn(Check, &T) -> Result<(), String>,
    C: Fn(Check, &[T]) -> Vec<Diff>,
>(
    before: Seq<DiffView>,
    after: Seq<DiffView>,
    check: Check,
    objects: &[T],
    validate: V,
    compare: C,
)
    requires
        elf_diff::validation_key(check) is None,
        elf_diff::is_step(before, after, check, objects, validate, compare),
    ensures
        exists|found: Vec<Diff>|
            {
                &&& #[trigger] call_ensures(compare, (check, objects), found)
                &&& after.len() == before.len() + found@.len()
                &&& forall|k: int| 0 <= k < before.len() ==> #[trigger] after[k] == before[k]
                &&& forall|k: int|
                    0 <= k < found@.len() ==> after[before.len() + k] == (#[trigger] found@[k])@
            },
{
    let found = choose|found: Vec<Diff>|
        #[trigger] call_ensures(compare, (check, objects), found) && after == before
            + elf_diff::diff_views(found@);
    assert(call_ensures(compare, (check, objects), found));
    assert forall|k: int| 0 <= k < found@.len() implies after[before.len() + k] == (
    #[trigger] found@[k])@ by {
        assert(elf_diff::diff_views(found@)[k] == found@[k]@);
    }
}

/// A full report is what the checks make of an empty one, each working on what those before it left.
pub proof fn full_reports_are_made_step_by_step<
    T,
    V: Fn(Check, &T) -> Result<(), String>,
    C: Fn(Check, &[T]) -> Vec<Diff>,
>(diffs: Seq<DiffView>, arch: ArchKind, objects: &[T], validate: V, compare: C)
    requires
        elf_diff::is_full_report(diffs, arch, objects, validate, compare),
    ensures
        exists|reports: Seq<Seq<DiffView>>|
            {
                &&& #[trigger] reports.len() == elf_diff::all_checks(arch).len() + 1
                &&& reports[0].len() == 0
                &&& reports.last() == diffs
                &&& forall|k: int|
                    0 <= k < elf_diff::all_checks(arch).len() ==> elf_diff::is_step(
                        reports[k],
                        reports[k + 1],
                        #[trigger] elf_diff::all_checks(arch)[k],
                        objects,
                        validate,
                        compare,
                    )
            },
{
    let reports = choose|reports: Seq<Seq<DiffView>>|
        #[trigger] elf_diff::are_steps(
            reports,
            elf_diff::all_checks(arch),
            objects,
            validate,
            compare,
        ) && reports[0] == Seq::<DiffView>::empty() && reports.last() == diffs;
    assert(reports.len() == elf_diff::all_checks(arch).len() + 1);
}

/// Files can be compared where all layouts can be read, all files can be opened, there are at least
/// two of them, and the processor is known; the report is then the full one for that processor.
/// Else the error says which layout or which file it is, and why, that there are too few files, or
/// why the processor is not known.
pub proof fn comparisons_end_as_their_steps_do<
    L,
    T,
    Y: Fn(usize) -> Result<L, String>,
    O: Fn(usize, &L) -> Result<T, String>,
    A: Fn(&[T]) -> Result<ArchKind, String>,
    V: Fn(Check, &T) -> Result<(), String>,
    C: Fn(Check, &[T]) -> Vec<Diff>,
>(
    num_layouts: int,
    num_objects: int,
    layouts: Seq<L>,
    objects: &[T],
    read_layout: Y,
    open: O,
    arch_of: A,
    validate: V,
    compare: C,
    r: Result<Seq<DiffView>, ElfReportError>,
)
    requires
        elf_diff::comparison_ends(
            num_layouts,
            num_objects,
            layouts,
            objects,
            read_layout,
            open,
            arch_of,
            validate,
            compare,
            r,
        ),
    ensures
        forall|k: int|
            0 <= k < layouts.len() ==> call_ensures(
                read_layout,
                (k as usize,),
                Ok::<L, String>(#[trigger] layouts[k]),
            ),
        forall|k: int|
            0 <= k < objects@.len() ==> call_ensures(
                open,
                (k as usize, &layouts[k]),
                Ok::<T, String>(#[trigger] objects@[k]),
            ),
        match r {
            Ok(diffs) => {
                &&& layouts.len() == num_layouts
                &&& objects@.len() == num_objects
                &&& num_objects >= 2
                &&& exists|arch: ArchKind|
                    #[trigger] call_ensures(arch_of, (objects,), Ok::<ArchKind, String>(arch))
                        && elf_diff::is_full_report(diffs, arch, objects, validate, compare)
            },
            Err(ElfReportError::Layout { file, reason }) => {
                &&& file == layouts.len()
                &&& file < num_layouts
                &&& objects@.len() == 0
                &&& call_ensures(read_layout, (file,), Err::<L, String>(reason))
            },
            Err(ElfReportError::Open { file, reason }) => {
                &&& layouts.len() == num_layouts
                &&& file == objects@.len()
                &&& file < num_objects
                &&& call_ensures(open, (file, &layouts[file as int]), Err::<T, String>(reason))
            },
            Err(ElfReportError::Files(error)) => {
                &&& error == ElfDiffError::TooFewFiles
                &&& layouts.len() == num_layouts
                &&& objects@.len() == num_objects
                &&& num_objects < 2
            },
            Err(ElfReportError::Arch(reason)) => {
                &&& layouts.len() == num_layouts
                &&& objects@.len() == num_objects
                &&& num_objects >= 2
                &&& call_ensures(arch_of, (objects,), Err::<ArchKind, String>(reason))
            },
        },
{
}

/// What is shown of a comparison are the names and paths of the files that were compared, and the
/// differences that are kept; errors stay as they are. Files without contents, name or path are not
/// compared.
pub proof fn reports_show_what_was_compared<P, K: Fn(&str) -> bool>(
    all: Result<Seq<DiffView>, ElfReportError>,
    names: Seq<String>,
    paths: Seq<P>,
    n: int,
    coverage: bool,
    keeps: K,
    r: Result<FileReport<P>, ElfReportError>,
    num_files: int,
)
    requires
        elf_diff::is_shown(all, names, paths, n, coverage, keeps, r),
        0 <= n <= names.len(),
        n <= paths.len(),
    ensures
        match (all, r) {
            (Ok(diffs), Ok(found)) => {
                &&& found.names@.len() == n
                &&& forall|k: int| 0 <= k < n ==> #[trigger] found.names@[k] == names[k]
                &&& found.paths@.len() == n
                &&& forall|k: int| 0 <= k < n ==> #[trigger] found.paths@[k] == paths[k]
                &&& found.coverage == coverage
                &&& report::is_kept_part(keeps, diffs, found.report@)
            },
            (Err(e), Err(error)) => error == e,
            _ => false,
        },
        ({
            let m = elf_diff::num_complete(num_files, names.len() as int, paths.len() as int);
            &&& m <= num_files && m <= names.len() && m <= paths.len()
            &&& m == num_files || m == names.len() || m == paths.len()
        }),
{
}

/// The first file that cannot be read is the one that is named.
pub proof fn the_first_unreadable_file_is_named(readable: Seq<bool>, from: int)
    requires
        0 <= from <= readable.len() <= usize::MAX,
        forall|k: int| 0 <= k < from ==> #[trigger] readable[k],
    ensures
        match elf_diff::first_unreadable(readable, from) {
            Some(file) => file < readable.len() && !readable[file as int] && forall|k: int|
                0 <= k < file ==> #[trigger] readable[k],
            None => forall|k: int| 0 <= k < readable.len() ==> #[trigger] readable[k],
        },
    decreases readable.len() - from,
{
    if from < readable.len() && readable[from] {
        the_first_unreadable_file_is_named(readable, from + 1);
    }
}

} // verus!
