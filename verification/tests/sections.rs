use pelink::align::align_up;
use pelink::pe_section::{
    coff_section_alignment, merge_characteristics, output_section_name, section_sort_key,
};

#[test]
fn names_are_cut_at_the_dollar_sign() {
    assert_eq!(output_section_name(b".text$mn"), *b".text\0\0\0");
    assert_eq!(output_section_name(b".rdata"), *b".rdata\0\0");
    assert_eq!(output_section_name(b".CRT$XCA"), *b".CRT\0\0\0\0");
    assert_eq!(output_section_name(b".verylongname"), *b".verylon");
    assert_eq!(output_section_name(b"$x"), [0u8; 8]);
    assert_eq!(output_section_name(b""), [0u8; 8]);
}

#[test]
fn alignment_comes_from_the_flags() {
    assert_eq!(coff_section_alignment(0), 1);
    assert_eq!(coff_section_alignment(0x0010_0000), 1);
    assert_eq!(coff_section_alignment(0x0050_0000), 16);
    assert_eq!(coff_section_alignment(0x00E0_0000), 8192);
    assert_eq!(coff_section_alignment(0x00F0_0000), 16384);
    assert_eq!(coff_section_alignment(0x6050_0020), 16);
}

#[test]
fn known_sections_come_first() {
    let names = [
        *b".text\0\0\0",
        *b".rdata\0\0",
        *b".data\0\0\0",
        *b".pdata\0\0",
        *b".xdata\0\0",
        *b".bss\0\0\0\0",
        *b".other\0\0",
    ];
    let keys: Vec<u32> = names.iter().map(section_sort_key).collect();
    assert_eq!(keys, vec![0, 1, 2, 3, 4, 5, 10]);
}

#[test]
fn only_contents_and_access_flags_are_kept() {
    assert_eq!(merge_characteristics(0xFFFF_FFFF), 0xE000_00E0);
    assert_eq!(merge_characteristics(0x6050_0020), 0x6000_0020);
    assert_eq!(merge_characteristics(0x0210_0A00), 0);
}

#[test]
fn addresses_are_rounded_up() {
    assert_eq!(align_up(0, 0x1000), 0);
    assert_eq!(align_up(1, 0x1000), 0x1000);
    assert_eq!(align_up(0x1000, 0x1000), 0x1000);
    assert_eq!(align_up(0x1001, 0x200), 0x1200);
    assert_eq!(align_up(5, 1), 5);
}
