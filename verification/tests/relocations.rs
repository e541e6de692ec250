use pelink::args::{Architecture, PeArgs};
use pelink::error::{LinkError, RelocationName};
use pelink::input::{
    InputObject, InputRelocation, InputRelocationTarget, InputSection, InputSymbol, SymbolSection,
};
use pelink::pe;
use pelink::pe_layout::{compute_layout, PeLayout};
use pelink::pe_reloc::{
    apply_relocations, checked_u32, write_i32, write_rel32, write_u16, write_u32, write_u64,
};
use pelink::pe_section::SectionContribution;
use pelink::pe_symbols::resolve_symbols;

const CODE: u32 = 0x6000_0020;
const DATA: u32 = 0xC000_0040;

fn args() -> PeArgs {
    PeArgs {
        arch: Architecture::X86_64,
        entry: None,
        is_dll: false,
        base_address: None,
        subsystem: None,
        large_address_aware: false,
        high_entropy_va: false,
        dynamic_base: false,
        nx_compat: false,
        terminal_server_aware: false,
        stack_size: None,
        heap_size: None,
    }
}

fn section(index: usize, name: &str, characteristics: u32, data: &[u8]) -> InputSection {
    InputSection {
        index,
        name: name.as_bytes().to_vec(),
        data: data.to_vec(),
        size: data.len() as u32,
        characteristics,
        relocations: Vec::new(),
        output_section: None,
        output_offset: 0,
    }
}

fn defined(name: &str, section: usize, value: u64) -> InputSymbol {
    InputSymbol {
        name: Some(name.to_owned()),
        section: SymbolSection::Section(section),
        value,
        is_undefined: false,
        is_definition: true,
        is_local: false,
    }
}

fn undefined(name: &str) -> InputSymbol {
    InputSymbol {
        name: Some(name.to_owned()),
        section: SymbolSection::Undefined,
        value: 0,
        is_undefined: true,
        is_definition: false,
        is_local: false,
    }
}

fn object(path: &str, sections: Vec<InputSection>, symbols: Vec<InputSymbol>) -> InputObject {
    InputObject { path: path.to_owned(), sections, symbols }
}

#[test]
fn numbers_are_written_low_byte_first() {
    let mut buf = vec![0xAA; 10];
    assert_eq!(write_u16(&mut buf, 1, 0x1234), Ok(()));
    assert_eq!(buf[..4], [0xAA, 0x34, 0x12, 0xAA]);
    assert_eq!(write_u32(&mut buf, 2, 0x1234_5678), Ok(()));
    assert_eq!(buf[1..7], [0x34, 0x78, 0x56, 0x34, 0x12, 0xAA]);
    assert_eq!(write_i32(&mut buf, 0, -2), Ok(()));
    assert_eq!(buf[..5], [0xFE, 0xFF, 0xFF, 0xFF, 0x34]);
    assert_eq!(write_i32(&mut buf, 0, 0x7FFF_FFFF), Ok(()));
    assert_eq!(buf[..4], [0xFF, 0xFF, 0xFF, 0x7F]);
    assert_eq!(write_u64(&mut buf, 2, 0x0102_0304_0506_0708), Ok(()));
    assert_eq!(buf[2..], [8, 7, 6, 5, 4, 3, 2, 1]);
}

#[test]
fn numbers_outside_of_the_buffer_are_refused() {
    let mut buf = vec![0xAA; 7];
    assert_eq!(write_u16(&mut buf, 6, 1), Err(LinkError::WriteOutOfBounds { width: 2 }));
    assert_eq!(write_u32(&mut buf, 4, 1), Err(LinkError::WriteOutOfBounds { width: 4 }));
    assert_eq!(write_i32(&mut buf, 100, 1), Err(LinkError::WriteOutOfBounds { width: 4 }));
    assert_eq!(write_u64(&mut buf, 0, 1), Err(LinkError::WriteOutOfBounds { width: 8 }));
    assert_eq!(buf, vec![0xAA; 7]);
    assert_eq!(write_u16(&mut buf, 5, 0), Ok(()));
    assert_eq!(write_u32(&mut buf, 3, 0), Ok(()));
}

#[test]
fn distances_have_to_fit() {
    let mut buf = vec![0; 4];
    assert_eq!(write_rel32(&mut buf, 0, 0x2000, 0x1000, 4), Ok(()));
    assert_eq!(buf, vec![0xFC, 0x0F, 0, 0]);
    assert_eq!(write_rel32(&mut buf, 0, 0x1000, 0x2000, 5), Ok(()));
    assert_eq!(i32::from_le_bytes([buf[0], buf[1], buf[2], buf[3]]), -0x1005);
    assert_eq!(write_rel32(&mut buf, 0, 0x8000_0003, 0, 4), Ok(()));
    assert_eq!(buf, vec![0xFF, 0xFF, 0xFF, 0x7F]);
    assert_eq!(write_rel32(&mut buf, 0, 0x8000_0004, 0, 4), Err(LinkError::Rel32OutOfRange));
    assert_eq!(write_rel32(&mut buf, 0, 0, 0x7FFF_FFFC, 4), Ok(()));
    assert_eq!(buf, vec![0, 0, 0, 0x80]);
    assert_eq!(write_rel32(&mut buf, 0, 0, 0x7FFF_FFFD, 4), Err(LinkError::Rel32OutOfRange));
    assert_eq!(
        write_rel32(&mut buf, 1, 0, 0, 4),
        Err(LinkError::WriteOutOfBounds { width: 4 })
    );
}

#[test]
fn values_have_to_fit() {
    assert_eq!(checked_u32(0xFFFF_FFFF, RelocationName::Addr32), Ok(0xFFFF_FFFF));
    assert_eq!(
        checked_u32(0x1_0000_0000, RelocationName::SecRel),
        Err(LinkError::ValueOverflow {
            relocation: RelocationName::SecRel,
            value: 0x1_0000_0000
        })
    );
}

const BASE: u64 = 0x1000_0000;

/// One object with 16 bytes of code at 0x1000_1000, data at 0x1000_2000, and these symbols:
/// `f` in the code, `d` in the data, an absolute one, an unnamed one.
fn layout(relocations: Vec<InputRelocation>) -> PeLayout {
    let mut code = section(1, ".text", CODE, &[0x90; 16]);
    code.relocations = relocations;
    let mut absolute = defined("abs", 1, 0x42);
    absolute.section = SymbolSection::Absolute;
    let objects = vec![object(
        "a.obj",
        vec![code, section(2, ".data", DATA, &[0; 8]), section(3, ".debug", 0x4200_0040, &[1])],
        vec![
            defined("f", 1, 3),
            defined("d", 2, 4),
            absolute,
            InputSymbol::placeholder(),
            InputSymbol { section: SymbolSection::Section(3), ..InputSymbol::placeholder() },
        ],
    )];
    let options = PeArgs { base_address: Some(BASE), ..args() };
    let mut layout = compute_layout(&options, objects).ok().unwrap();
    assert_eq!(resolve_symbols(&mut layout), Ok(()));
    layout
}

fn relocation(offset: u32, target: InputRelocationTarget, typ: u16) -> InputRelocation {
    InputRelocation { offset, target, typ }
}

/// Applies the relocations to the 16 bytes of code, which start at 0x200 in the file.
fn apply(relocations: Vec<InputRelocation>) -> Result<Vec<u8>, LinkError> {
    apply_with_base(relocations, BASE)
}

fn apply_with_base(relocations: Vec<InputRelocation>, base: u64) -> Result<Vec<u8>, LinkError> {
    let (buf, r) = apply_to(relocations, base);
    assert!(buf[..0x200].iter().all(|b| *b == 0x55));
    r.map(|()| buf[0x200..].to_vec())
}

/// Returns the file once the relocations have been applied, and how that ended.
fn apply_to(relocations: Vec<InputRelocation>, base: u64) -> (Vec<u8>, Result<(), LinkError>) {
    let mut layout = layout(relocations);
    layout.image_base = base;
    let mut buf = vec![0x55u8; 0x210];
    buf[0x200..].fill(0);
    let contribution =
        SectionContribution { object_index: 0, section_index: 0, output_offset: 0, size: 16 };
    let r = apply_relocations(
        &mut buf,
        &layout,
        &layout.sections[0],
        &contribution,
        &layout.objects[0].sections[0],
    );
    (buf, r)
}

#[test]
fn relocations_stop_at_the_first_bad_one() {
    let to_f = InputRelocationTarget::Symbol(0);
    let to_abs = InputRelocationTarget::Symbol(2);
    let bad = [
        (relocation(4, to_f, 0x99), LinkError::UnsupportedRelocation {
            typ: 0x99,
            object: 0,
            section: 0,
        }),
        (relocation(4, to_abs, pe::IMAGE_REL_AMD64_ADDR32NB), LinkError::TargetBelowImageBase),
        (relocation(14, to_f, pe::IMAGE_REL_AMD64_ADDR32NB), LinkError::WriteOutOfBounds {
            width: 4,
        }),
        (relocation(4, InputRelocationTarget::Symbol(9), pe::IMAGE_REL_AMD64_ADDR64),
            LinkError::MissingSymbol { object: 0, symbol: 9 }),
    ];
    for (failing, error) in bad {
        // Alone it leaves the file as it was.
        let (buf, r) = apply_to(vec![failing], BASE);
        assert_eq!(r, Err(error));
        assert!(buf[..0x200].iter().all(|b| *b == 0x55));
        assert!(buf[0x200..].iter().all(|b| *b == 0));
        // The one in front of it is applied, the one behind it is not.
        let (buf, r) = apply_to(
            vec![
                relocation(0, to_f, pe::IMAGE_REL_AMD64_ADDR32NB),
                failing,
                relocation(8, to_f, pe::IMAGE_REL_AMD64_ADDR32NB),
            ],
            BASE,
        );
        assert_eq!(r, Err(error));
        assert!(buf[..0x200].iter().all(|b| *b == 0x55));
        assert_eq!(buf[0x200..], [3, 0x10, 0, 0, 0, 0, 0, 0, 0, 0, 0, 0, 0, 0, 0, 0]);
    }
}

fn u32_at(buf: &[u8], at: usize) -> u32 {
    u32::from_le_bytes([buf[at], buf[at + 1], buf[at + 2], buf[at + 3]])
}

#[test]
fn absolute_relocations_store_the_target() {
    let to_d = InputRelocationTarget::Symbol(1);
    let wide = apply(vec![relocation(2, to_d, pe::IMAGE_REL_AMD64_ADDR64)]).unwrap();
    assert_eq!(wide[2..10], (BASE + 0x2004).to_le_bytes());
    let short = apply(vec![relocation(0, to_d, pe::IMAGE_REL_AMD64_ADDR32)]).unwrap();
    assert_eq!(u32_at(&short, 0) as u64, BASE + 0x2004);
    let relative = apply(vec![relocation(4, to_d, pe::IMAGE_REL_AMD64_ADDR32NB)]).unwrap();
    assert_eq!(u32_at(&relative, 4), 0x2004);
    let nothing = apply(vec![relocation(0, to_d, pe::IMAGE_REL_AMD64_ABSOLUTE)]).unwrap();
    assert_eq!(nothing, vec![0; 16]);
}

#[test]
fn relative_relocations_reach_the_target() {
    let to_d = InputRelocationTarget::Symbol(1);
    for extra in 0..6u16 {
        let typ = pe::IMAGE_REL_AMD64_REL32 + extra;
        let code = apply(vec![relocation(5, to_d, typ)]).unwrap();
        let distance = u32_at(&code, 5) as i32 as i64;
        let next = (BASE + 0x1000 + 5 + 4 + extra as u64) as i64;
        assert_eq!(next + distance, (BASE + 0x2004) as i64);
        assert_eq!(code[4], 0);
        assert_eq!(code[9], 0);
    }
}

#[test]
fn section_relocations_store_the_number() {
    let number = |target| {
        apply(vec![relocation(0, target, pe::IMAGE_REL_AMD64_SECTION)]).map(|b| [b[0], b[1]])
    };
    assert_eq!(number(InputRelocationTarget::Section(2)), Ok([2, 0]));
    assert_eq!(number(InputRelocationTarget::Symbol(1)), Ok([2, 0]));
    assert_eq!(number(InputRelocationTarget::Symbol(0)), Ok([1, 0]));
    assert_eq!(number(InputRelocationTarget::Absolute), Ok([0, 0]));
    assert_eq!(number(InputRelocationTarget::Symbol(2)), Err(LinkError::SymbolWithoutSection));
}

#[test]
fn section_offsets_count_from_the_output_section() {
    let to_f = InputRelocationTarget::Symbol(0);
    let code = apply(vec![relocation(0, to_f, pe::IMAGE_REL_AMD64_SECREL)]).unwrap();
    assert_eq!(u32_at(&code, 0), 3);
    let to_abs = InputRelocationTarget::Symbol(2);
    assert_eq!(
        apply(vec![relocation(0, to_abs, pe::IMAGE_REL_AMD64_SECREL)]),
        Err(LinkError::TargetBelowSection)
    );
}

#[test]
fn relocations_are_applied_in_order() {
    let to_f = InputRelocationTarget::Symbol(0);
    let to_d = InputRelocationTarget::Symbol(1);
    let code = apply(vec![
        relocation(0, to_f, pe::IMAGE_REL_AMD64_ADDR32NB),
        relocation(2, to_d, pe::IMAGE_REL_AMD64_ADDR32NB),
    ])
    .unwrap();
    assert_eq!(code[..6], [0x03, 0x10, 0x04, 0x20, 0, 0]);
}

#[test]
fn bad_relocations_are_refused() {
    let to_d = InputRelocationTarget::Symbol(1);
    let to_abs = InputRelocationTarget::Symbol(2);
    assert_eq!(
        apply(vec![relocation(0, to_d, 0x99)]),
        Err(LinkError::UnsupportedRelocation { typ: 0x99, object: 0, section: 0 })
    );
    assert_eq!(
        apply(vec![relocation(0, InputRelocationTarget::Symbol(9), pe::IMAGE_REL_AMD64_ADDR64)]),
        Err(LinkError::MissingSymbol { object: 0, symbol: 9 })
    );
    assert_eq!(
        apply(vec![relocation(0, InputRelocationTarget::Symbol(3), pe::IMAGE_REL_AMD64_ABSOLUTE)]),
        Err(LinkError::UnresolvedSymbol { object: 0, symbol: 3 })
    );
    assert_eq!(
        apply(vec![relocation(0, InputRelocationTarget::Section(3), pe::IMAGE_REL_AMD64_SECTION)]),
        Err(LinkError::SectionNotInOutput { object: 0, section: 2 })
    );
    assert_eq!(
        apply(vec![relocation(0, to_abs, pe::IMAGE_REL_AMD64_ADDR32NB)]),
        Err(LinkError::TargetBelowImageBase)
    );
    assert_eq!(
        apply(vec![relocation(14, to_d, pe::IMAGE_REL_AMD64_ADDR32)]),
        Err(LinkError::WriteOutOfBounds { width: 4 })
    );
    // Nothing is written, so nothing is out of bounds.
    assert!(apply(vec![relocation(0x100, to_d, pe::IMAGE_REL_AMD64_ABSOLUTE)]).is_ok());
    assert_eq!(
        apply_with_base(
            vec![relocation(0, to_d, pe::IMAGE_REL_AMD64_REL32)],
            u64::MAX - 0x1000
        ),
        Err(LinkError::Rel32OutOfRange)
    );
    assert_eq!(
        apply_with_base(vec![relocation(2, to_d, pe::IMAGE_REL_AMD64_REL32)], u64::MAX - 0x1001),
        Err(LinkError::ArithmeticOverflow)
    );
}

#[test]
fn large_addresses_do_not_fit_in_32_bits() {
    let to_section = InputRelocationTarget::Section(2);
    assert_eq!(
        apply_with_base(
            vec![relocation(0, to_section, pe::IMAGE_REL_AMD64_ADDR32)],
            0x1_4000_0000
        ),
        Err(LinkError::ValueOverflow {
            relocation: RelocationName::Addr32,
            value: 0x1_4000_2000
        })
    );
    let to_d = InputRelocationTarget::Symbol(1);
    assert_eq!(
        apply_with_base(vec![relocation(0, to_d, pe::IMAGE_REL_AMD64_ADDR32NB)], 0),
        Ok(vec![0x04, 0x20, 0x00, 0x10, 0, 0, 0, 0, 0, 0, 0, 0, 0, 0, 0, 0])
    );
}

#[test]
fn far_targets_do_not_fit_in_32_bits() {
    let to_d = InputRelocationTarget::Symbol(1);
    let far = |typ| {
        let mut layout = layout(vec![relocation(0, to_d, typ)]);
        layout.symbol_addresses[0][1] = Some(BASE + 0x1_0000_1000);
        let contribution =
            SectionContribution { object_index: 0, section_index: 0, output_offset: 0, size: 16 };
        apply_relocations(
            &mut vec![0u8; 0x210],
            &layout,
            &layout.sections[0],
            &contribution,
            &layout.objects[0].sections[0],
        )
    };
    assert_eq!(
        far(pe::IMAGE_REL_AMD64_ADDR32NB),
        Err(LinkError::ValueOverflow {
            relocation: RelocationName::Addr32Nb,
            value: 0x1_0000_1000
        })
    );
    assert_eq!(
        far(pe::IMAGE_REL_AMD64_SECREL),
        Err(LinkError::ValueOverflow {
            relocation: RelocationName::SecRel,
            value: 0x1_0000_0000
        })
    );
    assert_eq!(far(pe::IMAGE_REL_AMD64_REL32), Err(LinkError::Rel32OutOfRange));
    assert_eq!(far(pe::IMAGE_REL_AMD64_ADDR64), Ok(()));
}
