use pelink::bytes::{copy_at, push_le, write_le};
use pelink::text::{
    decimal_text, hexadecimal_text, join_texts, labels_text, push_label, sort_texts,
};

fn texts(list: &[&str]) -> Vec<String> {
    list.iter().map(|s| (*s).to_owned()).collect()
}

#[test]
fn numbers_become_texts() {
    assert_eq!(decimal_text(0), "0");
    assert_eq!(decimal_text(1098), "1098");
    assert_eq!(decimal_text(u64::MAX), format!("{}", u64::MAX));
    assert_eq!(hexadecimal_text(0), "0x0");
    assert_eq!(hexadecimal_text(0xBEEF), "0xbeef");
    assert_eq!(hexadecimal_text(u64::MAX), format!("{:#x}", u64::MAX));
}

#[test]
fn texts_are_joined() {
    assert_eq!(join_texts(&texts(&[]), ","), "");
    assert_eq!(join_texts(&texts(&["a"]), ","), "a");
    assert_eq!(join_texts(&texts(&["a", "", "b"]), ", "), "a, , b");
}

#[test]
fn labels_are_joined() {
    let mut labels = Vec::new();
    assert_eq!(labels_text(&labels), "none");
    push_label(&mut labels, true, "x");
    push_label(&mut labels, false, "y");
    push_label(&mut labels, true, "z");
    assert_eq!(labels_text(&labels), "x|z");
}

#[test]
fn texts_are_sorted() {
    let mut list = texts(&["b", "a", "\u{e9}", "ab", "B", "", "a"]);
    sort_texts(&mut list);
    assert_eq!(list, vec!["", "B", "a", "a", "ab", "b", "\u{e9}"]);
}

#[test]
fn low_bytes_come_first() {
    let mut buf = [9; 6];
    write_le(&mut buf, 1, 0x0403_0201, 4);
    assert_eq!(buf, [9, 1, 2, 3, 4, 9]);
    write_le(&mut buf, 4, 0x1_BBAA, 2);
    assert_eq!(buf, [9, 1, 2, 3, 0xAA, 0xBB]);
    let mut out = vec![7];
    push_le(&mut out, u64::MAX - 1, 8);
    assert_eq!(out, vec![7, 0xFE, 0xFF, 0xFF, 0xFF, 0xFF, 0xFF, 0xFF, 0xFF]);
    copy_at(&mut buf, 2, &[5, 6, 7], 2);
    assert_eq!(buf, [9, 1, 5, 6, 0xAA, 0xBB]);
}
