//! What can be told from the facts of images, and from reports on them.
use crate::coff;
use crate::diff_laws;
use crate::pe_diff;
use crate::pe_diff::{Aspect, DiffError, FactsFailure, FactsView, PeFacts};
use crate::pe_file;
use crate::pe_file::{PeSectionView, RelocationBlockView};
use crate::report;
use crate::report::{Diff, DiffValues, DiffView, Report};
use crate::text;
use vstd::prelude::*;

verus! {

// ---- numbers as texts ----

/// Numbers can be told from their digits.
pub proof fn digits_tell_numbers_apart(a: nat, b: nat, base: nat)
    requires
        2 <= base <= 16,
        text::digits(a, base) == text::digits(b, base),
    ensures
        a == b,
    decreases a,
{
    let x = text::digits(a, base);
    let y = text::digits(b, base);
    lemma_digits_len(a / base, base);
    lemma_digits_len(b / base, base);
    if a < base && b < base {
        assert(x[0] == text::digit(a as int));
        assert(y[0] == text::digit(b as int));
    } else if a < base {
        assert(y.len() >= 2);
    } else if b < base {
        assert(x.len() >= 2);
    } else {
        let p = text::digits(a / base, base);
        let q = text::digits(b / base, base);
        assert(x == p.push(text::digit(a as int % base as int)));
        assert(y == q.push(text::digit(b as int % base as int)));
        assert(p =~= x.drop_last());
        assert(q =~= y.drop_last());
        assert(x.last() == text::digit(a as int % base as int));
        assert(y.last() == text::digit(b as int % base as int));
        assert(a as int % base as int == b as int % base as int);
        assert(a / base < a) by (nonlinear_arith)
            requires
                2 <= base,
                base <= a,
        ;
        digits_tell_numbers_apart(a / base, b / base, base);
        vstd::arithmetic::div_mod::lemma_fundamental_div_mod(a as int, base as int);
        vstd::arithmetic::div_mod::lemma_fundamental_div_mod(b as int, base as int);
    }
}

/// The last digit of a number is its remainder, and those in front of it are the digits of the
/// quotient. The digits are `0` to `9` and `a` to `f`.
pub proof fn digits_stand_for_the_number(n: nat, base: nat)
    requires
        2 <= base <= 16,
    ensures
        ({
            let digits = text::digits(n, base);
            let last = n as int % base as int;
            &&& digits.len() > 0
            &&& digits.last() as int == (if last < 10 {
                48 + last
            } else {
                87 + last
            })
            &&& n < base ==> digits.len() == 1
            &&& n >= base ==> digits.drop_last() == text::digits(n / base, base)
        }),
{
    if n >= base {
        let digits = text::digits(n, base);
        assert(digits.drop_last() =~= text::digits(n / base, base));
    } else {
        vstd::arithmetic::div_mod::lemma_small_mod(n, base);
    }
}

/// Numbers are written in base ten, or in base sixteen behind `0x`.
pub proof fn numbers_are_written_in_two_ways(n: nat)
    ensures
        text::decimal(n) == text::digits(n, 10),
        text::hexadecimal(n).len() == text::digits(n, 16).len() + 2,
        text::hexadecimal(n)[0] == '0',
        text::hexadecimal(n)[1] == 'x',
        text::hexadecimal(n).skip(2) == text::digits(n, 16),
{
    assert(text::hexadecimal(n).skip(2) =~= text::digits(n, 16));
}

/// Joined texts stand one behind the other, with the separator between them. Labels are joined by
/// bars; where there are none, the text is `none`.
pub proof fn texts_are_joined_in_order(
    list: Seq<Seq<char>>,
    separator: Seq<char>,
    more: Seq<char>,
)
    ensures
        text::join(Seq::empty(), separator) == Seq::<char>::empty(),
        text::join(list.push(more), separator) == (if list.len() == 0 {
            more
        } else {
            text::join(list, separator) + separator + more
        }),
        text::labelled(Seq::empty()) == "none"@,
        list.len() > 0 ==> text::labelled(list) == text::join(list, "|"@),
{
    lemma_same_joined(list, list.push(more), separator, list.len() as int);
}

/// Only the first texts count.
proof fn lemma_same_joined(
    a: Seq<Seq<char>>,
    b: Seq<Seq<char>>,
    separator: Seq<char>,
    n: int,
)
    requires
        0 <= n <= a.len(),
        n <= b.len(),
        forall|k: int| 0 <= k < n ==> #[trigger] a[k] == b[k],
    ensures
        text::joined(a, separator, n) == text::joined(b, separator, n),
    decreases n,
{
    if n > 0 {
        lemma_same_joined(a, b, separator, n - 1);
        assert(a[n - 1] == b[n - 1]);
    }
}

/// A number has digits.
proof fn lemma_digits_len(n: nat, base: nat)
    ensures
        text::digits(n, base).len() >= 1,
{
}

/// Whether a text is made of digits and small letters.
spec fn is_word(text: Seq<char>) -> bool {
    forall|i: int|
        0 <= i < text.len() ==> ('0' <= #[trigger] text[i] && text[i] <= '9') || ('a' <= text[i]
            && text[i] <= 'z')
}

/// Digits are digits.
proof fn lemma_digits_are_words(n: nat, base: nat)
    requires
        2 <= base <= 16,
    ensures
        is_word(text::digits(n, base)),
    decreases n,
{
    if n >= base {
        assert(n / base < n) by (nonlinear_arith)
            requires
                2 <= base,
                base <= n,
        ;
        lemma_digits_are_words(n / base, base);
    }
}

// ---- texts with separators ----

/// Whether a character does not occur in a text.
pub open spec fn is_free_of(text: Seq<char>, c: char) -> bool {
    forall|i: int| 0 <= i < text.len() ==> #[trigger] text[i] != c
}

/// What stands in front of the first separator can be told from the whole.
proof fn lemma_split_first(a: Seq<char>, r: Seq<char>, b: Seq<char>, s: Seq<char>, c: char)
    requires
        is_free_of(a, c),
        is_free_of(b, c),
        a + seq![c] + r == b + seq![c] + s,
    ensures
        a == b,
        r == s,
{
    let all = a + seq![c] + r;
    assert(all[a.len() as int] == c);
    assert((b + seq![c] + s)[b.len() as int] == c);
    if a.len() < b.len() {
        assert(all[a.len() as int] == b[a.len() as int]);
    } else if b.len() < a.len() {
        assert(all[b.len() as int] == a[b.len() as int]);
    }
    assert(a =~= all.take(a.len() as int));
    assert(b =~= all.take(a.len() as int));
    assert(r =~= all.skip(a.len() as int + 1));
    assert(s =~= all.skip(a.len() as int + 1));
}

/// What stands behind the last separator can be told from the whole.
proof fn lemma_split_last(a: Seq<char>, r: Seq<char>, b: Seq<char>, s: Seq<char>, c: char)
    requires
        is_free_of(r, c),
        is_free_of(s, c),
        a + seq![c] + r == b + seq![c] + s,
    ensures
        a == b,
        r == s,
{
    let all = a + seq![c] + r;
    let other = b + seq![c] + s;
    assert(all.len() == a.len() + 1 + r.len());
    assert(other.len() == b.len() + 1 + s.len());
    assert(all[a.len() as int] == c);
    assert(other[b.len() as int] == c);
    if a.len() < b.len() {
        assert(all[b.len() as int] == r[b.len() - a.len() - 1]);
    } else if b.len() < a.len() {
        assert(other[a.len() as int] == s[a.len() - b.len() - 1]);
    }
    assert(a =~= all.take(a.len() as int));
    assert(b =~= all.take(a.len() as int));
    assert(r =~= all.skip(a.len() as int + 1));
    assert(s =~= all.skip(a.len() as int + 1));
}

/// Joined texts are free of what all of them and the separator are free of.
proof fn lemma_joined_free(list: Seq<Seq<char>>, separator: Seq<char>, n: int, c: char)
    requires
        0 <= n <= list.len(),
        is_free_of(separator, c),
        forall|k: int| 0 <= k < n ==> is_free_of(#[trigger] list[k], c),
    ensures
        is_free_of(text::joined(list, separator, n), c),
    decreases n,
{
    if n == 1 {
        assert(is_free_of(list[0], c));
    } else if n > 1 {
        lemma_joined_free(list, separator, n - 1, c);
        assert(is_free_of(list[n - 1], c));
    }
}

// ---- flags ----

/// One for a flag that is set.
pub open spec fn one_if(applies: bool) -> int {
    if applies {
        1
    } else {
        0
    }
}

/// Of the characteristics of a file, exactly those are named that it has, each once: that it can be
/// executed, that it is a library, that it can handle large addresses, and that its relocations are
/// stripped.
pub proof fn file_characteristics_are_named(flags: u16)
    ensures
        ({
            let labels = pe_diff::file_labels(flags);
            &&& labels.contains("executable"@) <==> flags & 0x0002 != 0
            &&& labels.contains("dll"@) <==> flags & 0x2000 != 0
            &&& labels.contains("large-address-aware"@) <==> flags & 0x0020 != 0
            &&& labels.contains("relocs-stripped"@) <==> flags & 0x0001 != 0
            &&& labels.len() == one_if(flags & 0x0002 != 0) + one_if(flags & 0x2000 != 0) + one_if(
                flags & 0x0020 != 0,
            ) + one_if(flags & 0x0001 != 0)
        }),
{
    reveal_strlit("executable");
    reveal_strlit("dll");
    reveal_strlit("large-address-aware");
    reveal_strlit("relocs-stripped");
    let labels = pe_diff::file_labels(flags);
    let first = text::label_if(flags & 0x0002 != 0, "executable"@);
    let second = text::label_if(flags & 0x2000 != 0, "dll"@);
    let third = text::label_if(flags & 0x0020 != 0, "large-address-aware"@);
    let fourth = text::label_if(flags & 0x0001 != 0, "relocs-stripped"@);
    assert(labels == first + second + third + fourth);
    if flags & 0x0002 != 0 {
        assert(labels[0] == "executable"@);
    }
    if flags & 0x2000 != 0 {
        assert(labels[first.len() as int] == "dll"@);
    }
    if flags & 0x0020 != 0 {
        assert(labels[(first.len() + second.len()) as int] == "large-address-aware"@);
    }
    if flags & 0x0001 != 0 {
        assert(labels[(first.len() + second.len() + third.len()) as int] == "relocs-stripped"@);
    }
    assert("executable"@.len() == 10 && "dll"@.len() == 3 && "large-address-aware"@.len() == 19
        && "relocs-stripped"@.len() == 15);
    assert forall|k: int| 0 <= k < labels.len() implies {
        ||| #[trigger] labels[k] == "executable"@ && flags & 0x0002 != 0
        ||| labels[k] == "dll"@ && flags & 0x2000 != 0
        ||| labels[k] == "large-address-aware"@ && flags & 0x0020 != 0
        ||| labels[k] == "relocs-stripped"@ && flags & 0x0001 != 0
    } by {}
}

/// Of the flags of a section, exactly those are named that it has, each once.
pub proof fn section_flags_are_named(flags: u32)
    ensures
        ({
            let labels = pe_diff::section_labels(flags);
            &&& labels.contains("code"@) <==> flags & 0x20 != 0
            &&& labels.contains("idata"@) <==> flags & 0x40 != 0
            &&& labels.contains("bss"@) <==> flags & 0x80 != 0
            &&& labels.contains("x"@) <==> flags & 0x2000_0000 != 0
            &&& labels.contains("r"@) <==> flags & 0x4000_0000 != 0
            &&& labels.contains("w"@) <==> flags & 0x8000_0000 != 0
            &&& labels.contains("discard"@) <==> flags & 0x0200_0000 != 0
            &&& labels.len() == one_if(flags & 0x20 != 0) + one_if(flags & 0x40 != 0) + one_if(
                flags & 0x80 != 0,
            ) + one_if(flags & 0x2000_0000 != 0) + one_if(flags & 0x4000_0000 != 0) + one_if(
                flags & 0x8000_0000 != 0,
            ) + one_if(flags & 0x0200_0000 != 0)
        }),
{
    reveal_strlit("code");
    reveal_strlit("idata");
    reveal_strlit("bss");
    reveal_strlit("x");
    reveal_strlit("r");
    reveal_strlit("w");
    reveal_strlit("discard");
    assert("code"@.len() == 4 && "idata"@.len() == 5 && "bss"@.len() == 3 && "x"@[0] == 'x'
        && "r"@[0] == 'r' && "w"@[0] == 'w' && "x"@.len() == 1 && "r"@.len() == 1 && "w"@.len() == 1
        && "discard"@.len() == 7);
    let none = Seq::<Seq<char>>::empty();
    let a = text::label_if(flags & 0x20 != 0, "code"@);
    let b = a + text::label_if(flags & 0x40 != 0, "idata"@);
    let c = b + text::label_if(flags & 0x80 != 0, "bss"@);
    let d = c + text::label_if(flags & 0x2000_0000 != 0, "x"@);
    let e = d + text::label_if(flags & 0x4000_0000 != 0, "r"@);
    let f = e + text::label_if(flags & 0x8000_0000 != 0, "w"@);
    let g = f + text::label_if(flags & 0x0200_0000 != 0, "discard"@);
    assert(none + a =~= a);
    assert(pe_diff::section_labels(flags) == g);
    lemma_with_label(none, flags & 0x20 != 0, "code"@);
    lemma_with_label(a, flags & 0x40 != 0, "idata"@);
    lemma_with_label(b, flags & 0x80 != 0, "bss"@);
    lemma_with_label(c, flags & 0x2000_0000 != 0, "x"@);
    lemma_with_label(d, flags & 0x4000_0000 != 0, "r"@);
    lemma_with_label(e, flags & 0x8000_0000 != 0, "w"@);
    lemma_with_label(f, flags & 0x0200_0000 != 0, "discard"@);
}

/// One more label, if it applies.
proof fn lemma_with_label(list: Seq<Seq<char>>, applies: bool, label: Seq<char>)
    ensures
        forall|other: Seq<char>| #[trigger]
            (list + text::label_if(applies, label)).contains(other) <==> list.contains(other)
                || applies && other == label,
        (list + text::label_if(applies, label)).len() == list.len() + one_if(applies),
{
    let all = list + text::label_if(applies, label);
    assert forall|other: Seq<char>| #[trigger] all.contains(other) <==> list.contains(other)
        || applies && other == label by {
        if list.contains(other) {
            let i = list.index_of(other);
            assert(all[i] == other);
        }
        if applies && other == label {
            assert(all[list.len() as int] == other);
        }
        if all.contains(other) {
            let i = all.index_of(other);
            if i < list.len() {
                assert(list[i] == other);
            }
        }
    }
}

// ---- sections ----

/// The text of section flags holds no colon.
proof fn lemma_section_flags_free(flags: u32)
    ensures
        is_free_of(text::labelled(pe_diff::section_labels(flags)), ':'),
{
    reveal_strlit("code");
    reveal_strlit("idata");
    reveal_strlit("bss");
    reveal_strlit("x");
    reveal_strlit("r");
    reveal_strlit("w");
    reveal_strlit("discard");
    reveal_strlit("none");
    reveal_strlit("|");
    let labels = pe_diff::section_labels(flags);
    assert forall|k: int| 0 <= k < labels.len() implies is_free_of(#[trigger] labels[k], ':') by {
        lemma_section_label(flags, k);
    }
    lemma_joined_free(labels, "|"@, labels.len() as int, ':');
}

/// The labels of section flags.
proof fn lemma_section_label(flags: u32, k: int)
    requires
        0 <= k < pe_diff::section_labels(flags).len(),
    ensures
        ({
            let label = pe_diff::section_labels(flags)[k];
            label == "code"@ || label == "idata"@ || label == "bss"@ || label == "x"@ || label
                == "r"@ || label == "w"@ || label == "discard"@
        }),
{
    let none = Seq::<Seq<char>>::empty();
    let a = text::label_if(flags & 0x20 != 0, "code"@);
    let b = a + text::label_if(flags & 0x40 != 0, "idata"@);
    let c = b + text::label_if(flags & 0x80 != 0, "bss"@);
    let d = c + text::label_if(flags & 0x2000_0000 != 0, "x"@);
    let e = d + text::label_if(flags & 0x4000_0000 != 0, "r"@);
    let f = e + text::label_if(flags & 0x8000_0000 != 0, "w"@);
    let g = f + text::label_if(flags & 0x0200_0000 != 0, "discard"@);
    assert(none + a =~= a);
    assert(pe_diff::section_labels(flags) == g);
    lemma_with_label(none, flags & 0x20 != 0, "code"@);
    lemma_with_label(a, flags & 0x40 != 0, "idata"@);
    lemma_with_label(b, flags & 0x80 != 0, "bss"@);
    lemma_with_label(c, flags & 0x2000_0000 != 0, "x"@);
    lemma_with_label(d, flags & 0x4000_0000 != 0, "r"@);
    lemma_with_label(e, flags & 0x8000_0000 != 0, "w"@);
    lemma_with_label(f, flags & 0x0200_0000 != 0, "discard"@);
    assert(g.contains(g[k]));
}

/// Sections whose names and flags are known are described alike exactly if they have the same name
/// and the same of the flags that are compared: code, initialized data, uninitialized data,
/// execute, read, write and discardable.
pub proof fn sections_are_told_apart(a: PeSectionView, b: PeSectionView)
    requires
        a.name is Some,
        b.name is Some,
        a.characteristics is Some,
        b.characteristics is Some,
    ensures
        pe_diff::section_text(a) == pe_diff::section_text(b) <==> a.name == b.name
            && a.characteristics->0 & 0xE200_00E0 == b.characteristics->0 & 0xE200_00E0,
{
    let x = text::labelled(pe_diff::section_labels(a.characteristics->0));
    let y = text::labelled(pe_diff::section_labels(b.characteristics->0));
    diff_laws::section_flags_tell_apart(a.characteristics->0, b.characteristics->0);
    lemma_section_flags_free(a.characteristics->0);
    lemma_section_flags_free(b.characteristics->0);
    if pe_diff::section_text(a) == pe_diff::section_text(b) {
        lemma_split_last(a.name->0, x, b.name->0, y, ':');
    }
}

/// A section is described by its name and its flags, with a colon between them; what cannot be read
/// is said to be invalid or unknown.
pub proof fn sections_are_described_by_name_and_flags(section: PeSectionView)
    ensures
        ({
            let name = match section.name {
                Some(name) => name,
                None => "<invalid>"@,
            };
            let flags = match section.characteristics {
                Some(flags) => text::labelled(pe_diff::section_labels(flags)),
                None => "unknown"@,
            };
            let described = pe_diff::section_text(section);
            &&& described.len() == name.len() + 1 + flags.len()
            &&& described.take(name.len() as int) == name
            &&& described[name.len() as int] == ':'
            &&& described.skip(name.len() as int + 1) == flags
        }),
{
    let name = match section.name {
        Some(name) => name,
        None => "<invalid>"@,
    };
    let flags = match section.characteristics {
        Some(flags) => text::labelled(pe_diff::section_labels(flags)),
        None => "unknown"@,
    };
    let described = pe_diff::section_text(section);
    assert(described.take(name.len() as int) =~= name);
    assert(described.skip(name.len() as int + 1) =~= flags);
}

// ---- data directories ----

/// The names of data directories are those of the format.
pub proof fn directories_have_names()
    ensures
        pe_diff::directory_text(0) == "export"@,
        pe_diff::directory_text(1) == "import"@,
        pe_diff::directory_text(2) == "resource"@,
        pe_diff::directory_text(3) == "exception"@,
        pe_diff::directory_text(4) == "security"@,
        pe_diff::directory_text(5) == "basereloc"@,
        pe_diff::directory_text(6) == "debug"@,
        pe_diff::directory_text(7) == "architecture"@,
        pe_diff::directory_text(8) == "globalptr"@,
        pe_diff::directory_text(9) == "tls"@,
        pe_diff::directory_text(10) == "load-config"@,
        pe_diff::directory_text(11) == "bound-import"@,
        pe_diff::directory_text(12) == "iat"@,
        pe_diff::directory_text(13) == "delay-import"@,
        pe_diff::directory_text(14) == "com-descriptor"@,
{
}

/// The length and the first character of the name of a data directory.
spec fn mark(name: Seq<char>) -> (int, char) {
    (name.len() as int, name[0])
}

/// No two data directories have one name, and none has a comma in it.
proof fn lemma_directory_names(k: int)
    requires
        0 <= k < 15,
    ensures
        mark(pe_diff::directory_text(k)) == seq![
            (6int, 'e'),
            (6, 'i'),
            (8, 'r'),
            (9, 'e'),
            (8, 's'),
            (9, 'b'),
            (5, 'd'),
            (12, 'a'),
            (9, 'g'),
            (3, 't'),
            (11, 'l'),
            (12, 'b'),
            (3, 'i'),
            (12, 'd'),
            (14, 'c'),
        ][k],
        is_free_of(pe_diff::directory_text(k), ','),
{
    reveal_strlit("export");
    reveal_strlit("import");
    reveal_strlit("resource");
    reveal_strlit("exception");
    reveal_strlit("security");
    reveal_strlit("basereloc");
    reveal_strlit("debug");
    reveal_strlit("architecture");
    reveal_strlit("globalptr");
    reveal_strlit("tls");
    reveal_strlit("load-config");
    reveal_strlit("bound-import");
    reveal_strlit("iat");
    reveal_strlit("delay-import");
    reveal_strlit("com-descriptor");
}

/// The names of two data directories differ.
proof fn lemma_directory_names_differ(k: int, l: int)
    requires
        0 <= k < l < 15,
    ensures
        pe_diff::directory_text(k) != pe_diff::directory_text(l),
{
    lemma_directory_names(k);
    lemma_directory_names(l);
}

/// The list of data directories holds the names of those that say where something is.
proof fn lemma_directory_list(directories: Seq<Option<(u32, u32)>>, n: int, k: int)
    requires
        0 <= n <= directories.len(),
        n <= 15,
        0 <= k < 15,
    ensures
        pe_diff::directory_list(directories, n).contains(pe_diff::directory_text(k)) <==> k < n
            && pe_diff::is_present(directories[k]),
    decreases n,
{
    if n > 0 {
        lemma_directory_list(directories, n - 1, k);
        let before = pe_diff::directory_list(directories, n - 1);
        let own = text::label_if(
            pe_diff::is_present(directories[n - 1]),
            pe_diff::directory_text(n - 1),
        );
        let list = pe_diff::directory_list(directories, n);
        assert(list == before + own);
        let name = pe_diff::directory_text(k);
        if before.contains(name) {
            let i = before.index_of(name);
            assert(list[i] == name);
        }
        if own.len() == 1 && k == n - 1 {
            assert(list[before.len() as int] == name);
        }
        if list.contains(name) {
            let i = list.index_of(name);
            if i < before.len() {
                assert(before[i] == name);
            } else {
                assert(own[0] == name);
                if k < n - 1 {
                    lemma_directory_names_differ(k, n - 1);
                } else if n - 1 < k {
                    lemma_directory_names_differ(n - 1, k);
                }
            }
        }
    }
}

/// A data directory is named exactly if it says where something is and how long that is.
pub proof fn present_directories_are_named(directories: Seq<Option<(u32, u32)>>, k: int)
    requires
        directories.len() <= 15,
        0 <= k < directories.len(),
    ensures
        pe_diff::directory_list(directories, directories.len() as int).contains(
            pe_diff::directory_text(k),
        ) <==> directories[k] is Some && (directories[k]->0).0 != 0 && (directories[k]->0).1 != 0,
{
    lemma_directory_list(directories, directories.len() as int, k);
}

/// Data directories are named in the order of the format, each behind those in front of it.
pub proof fn directories_are_named_in_order(
    directories: Seq<Option<(u32, u32)>>,
    more: Option<(u32, u32)>,
)
    ensures
        pe_diff::directory_list(Seq::empty(), 0) == Seq::<Seq<char>>::empty(),
        pe_diff::directory_list(directories.push(more), directories.len() as int + 1) == (
        if more is Some && (more->0).0 != 0 && (more->0).1 != 0 {
            pe_diff::directory_list(directories, directories.len() as int).push(
                pe_diff::directory_text(directories.len() as int),
            )
        } else {
            pe_diff::directory_list(directories, directories.len() as int)
        }),
{
    let n = directories.len() as int;
    lemma_same_directories(directories, directories.push(more), n);
    assert(pe_diff::directory_list(directories.push(more), n + 1) =~= (if more is Some && (
    more->0).0 != 0 && (more->0).1 != 0 {
        pe_diff::directory_list(directories, n).push(pe_diff::directory_text(n))
    } else {
        pe_diff::directory_list(directories, n)
    }));
}

/// Only the first data directories count.
proof fn lemma_same_directories(
    a: Seq<Option<(u32, u32)>>,
    b: Seq<Option<(u32, u32)>>,
    n: int,
)
    requires
        0 <= n <= a.len(),
        n <= b.len(),
        forall|k: int| 0 <= k < n ==> #[trigger] a[k] == b[k],
    ensures
        pe_diff::directory_list(a, n) == pe_diff::directory_list(b, n),
    decreases n,
{
    if n > 0 {
        lemma_same_directories(a, b, n - 1);
        assert(a[n - 1] == b[n - 1]);
    }
}

// ---- lists ----

/// Sections and imports are listed in the order of their characters. Every section is listed, as
/// often as it occurs, and every import once.
pub proof fn lists_are_sorted(
    sections: Seq<PeSectionView>,
    imports: Seq<(Seq<u8>, Seq<u8>)>,
    i: int,
    j: int,
)
    ensures
        ({
            let list = pe_diff::section_list(sections);
            &&& list.len() == sections.len()
            &&& list.to_multiset() == diff_laws::section_texts(sections)
            &&& 0 <= i < j < list.len() ==> comes_first(list[i], list[j])
        }),
        ({
            let list = pe_diff::import_list(imports);
            &&& list.to_set() == diff_laws::import_texts(imports)
            &&& list.no_duplicates()
            &&& 0 <= i < j < list.len() ==> comes_first(list[i], list[j])
        }),
{
    let leq = |x: Seq<char>, y: Seq<char>| text::text_le(x, y);
    text::texts_are_ordered();
    let texts = Seq::new(sections.len(), |k: int| pe_diff::section_text(sections[k]));
    texts.lemma_sort_by_ensures(leq);
    let names = pe_diff::distinct_imports(imports, imports.len() as int);
    names.lemma_sort_by_ensures(leq);
    diff_laws::import_lists_hold_their_texts(imports);
    pe_diff::lemma_distinct_imports(imports, imports.len() as int);
    let first = pe_diff::section_list(sections);
    let second = pe_diff::import_list(imports);
    assert(first.len() == sections.len()) by {
        broadcast use vstd::seq_lib::group_to_multiset_ensures;

        assert(first.to_multiset().len() == texts.to_multiset().len());
    }
    assert(second.no_duplicates()) by {
        names.lemma_multiset_has_no_duplicates();
        broadcast use vstd::seq_lib::group_to_multiset_ensures;

        assert(second.to_multiset() == names.to_multiset());
        second.lemma_multiset_has_no_duplicates_conv();
    }
    if 0 <= i < j < first.len() {
        assert(leq(first[i], first[j]));
        lemma_comes_first(first[i], first[j]);
    }
    if 0 <= i < j < second.len() {
        assert(leq(second[i], second[j]));
        lemma_comes_first(second[i], second[j]);
    }
}

/// Whether one text comes before another, or is equal to it: it is the beginning of the other, or
/// has a lower character where they differ first.
pub open spec fn comes_first(a: Seq<char>, b: Seq<char>) -> bool {
    ||| a.len() <= b.len() && a == b.take(a.len() as int)
    ||| exists|k: int|
        {
            &&& 0 <= k < a.len()
            &&& k < b.len()
            &&& a.take(k) == b.take(k)
            &&& (#[trigger] a[k] as int) < (b[k] as int)
        }
}

/// Texts that are ordered come one before the other.
proof fn lemma_comes_first(a: Seq<char>, b: Seq<char>)
    requires
        text::text_le(a, b),
    ensures
        comes_first(a, b),
    decreases a.len(),
{
    if a.len() == 0 {
        assert(a =~= b.take(0));
    } else if a[0] == b[0] {
        let x = a.drop_first();
        let y = b.drop_first();
        lemma_comes_first(x, y);
        if x.len() <= y.len() && x == y.take(x.len() as int) {
            assert(a =~= b.take(a.len() as int)) by {
                assert forall|i: int| 0 <= i < a.len() implies #[trigger] a[i] == b[i] by {
                    if i > 0 {
                        assert(x[i - 1] == y.take(x.len() as int)[i - 1]);
                    }
                }
            }
        } else {
            let k = choose|k: int|
                {
                    &&& 0 <= k < x.len()
                    &&& k < y.len()
                    &&& x.take(k) == y.take(k)
                    &&& (#[trigger] x[k] as int) < (y[k] as int)
                };
            assert(a[k + 1] == x[k]);
            assert(a.take(k + 1) =~= b.take(k + 1)) by {
                assert forall|i: int| 0 <= i < k + 1 implies #[trigger] a[i] == b[i] by {
                    if i > 0 {
                        assert(x.take(k)[i - 1] == y.take(k)[i - 1]);
                    }
                }
            }
        }
    } else {
        assert(a.take(0) =~= b.take(0));
        assert((a[0] as int) < (b[0] as int));
    }
}

// ---- imports ----

/// An import is described by the name of its library, in small letters, and its own, with an
/// exclamation mark between them.
pub proof fn imports_are_described_by_library_and_name(import: (Seq<u8>, Seq<u8>))
    ensures
        ({
            let library = coff::lossy_text(import.0);
            let described = pe_diff::import_text(import);
            &&& described.len() == library.len() + 1 + coff::lossy_text(import.1).len()
            &&& described.skip(library.len() as int + 1) == coff::lossy_text(import.1)
            &&& described[library.len() as int] == '!'
            &&& forall|i: int|
                0 <= i < library.len() ==> #[trigger] described[i] == (if 'A' <= library[i]
                    && library[i] <= 'Z' {
                    (library[i] as int + 32) as char
                } else {
                    library[i]
                })
        }),
{
    assert(pe_diff::import_text(import).skip(coff::lossy_text(import.0).len() as int + 1)
        =~= coff::lossy_text(import.1));
}

// ---- base relocations ----

/// Each entry that is more than padding counts once.
pub proof fn entries_are_counted_one_by_one(
    blocks: Seq<RelocationBlockView>,
    more: RelocationBlockView,
    types: Seq<u16>,
    typ: u16,
)
    ensures
        pe_diff::total_entries(None) == 0,
        pe_diff::total_entries(Some(blocks)) == pe_diff::entry_count(blocks, blocks.len() as int),
        pe_diff::entries_among(Seq::empty(), 0) == 0,
        pe_diff::entries_among(types.push(typ), types.len() as int + 1) == pe_diff::entries_among(
            types,
            types.len() as int,
        ) + (if typ != 0 {
            1int
        } else {
            0
        }),
        pe_diff::entry_count(Seq::empty(), 0) == 0,
        pe_diff::entry_count(blocks.push(more), blocks.len() as int + 1) == pe_diff::entry_count(
            blocks,
            blocks.len() as int,
        ) + pe_diff::entries_among(more.types, more.types.len() as int),
{
    lemma_same_entries(types, types.push(typ), types.len() as int);
    lemma_same_blocks(blocks, blocks.push(more), blocks.len() as int);
}

/// Only the first entries count.
proof fn lemma_same_entries(a: Seq<u16>, b: Seq<u16>, n: int)
    requires
        0 <= n <= a.len(),
        n <= b.len(),
        forall|k: int| 0 <= k < n ==> #[trigger] a[k] == b[k],
    ensures
        pe_diff::entries_among(a, n) == pe_diff::entries_among(b, n),
    decreases n,
{
    if n > 0 {
        lemma_same_entries(a, b, n - 1);
        assert(a[n - 1] == b[n - 1]);
    }
}

/// Only the first blocks count.
proof fn lemma_same_blocks(a: Seq<RelocationBlockView>, b: Seq<RelocationBlockView>, n: int)
    requires
        0 <= n <= a.len(),
        n <= b.len(),
        forall|k: int| 0 <= k < n ==> #[trigger] a[k] == b[k],
    ensures
        pe_diff::entry_count(a, n) == pe_diff::entry_count(b, n),
    decreases n,
{
    if n > 0 {
        lemma_same_blocks(a, b, n - 1);
        assert(a[n - 1] == b[n - 1]);
    }
}

/// The types of base relocations that the format names are called by their names, all others by
/// their numbers.
pub proof fn relocation_types_have_names(typ: u32)
    ensures
        pe_diff::type_text(0) == "ABSOLUTE"@,
        pe_diff::type_text(1) == "HIGH"@,
        pe_diff::type_text(2) == "LOW"@,
        pe_diff::type_text(3) == "HIGHLOW"@,
        pe_diff::type_text(4) == "HIGHADJ"@,
        pe_diff::type_text(10) == "DIR64"@,
        4 < typ && typ != 10 ==> pe_diff::type_text(typ) == text::hexadecimal(typ as nat),
{
}

/// The text of a type of relocation holds no bar and is not empty.
proof fn lemma_type_text(typ: u32)
    requires
        typ <= u16::MAX,
    ensures
        diff_laws::is_plain(pe_diff::type_text(typ)),
        pe_diff::type_text(typ).len() > 0,
        typ != 0 && typ != 1 && typ != 2 && typ != 3 && typ != 4 && typ != 10
            ==> pe_diff::type_text(typ)[0] == '0',
{
    reveal_strlit("ABSOLUTE");
    reveal_strlit("HIGH");
    reveal_strlit("LOW");
    reveal_strlit("HIGHLOW");
    reveal_strlit("HIGHADJ");
    reveal_strlit("DIR64");
    lemma_digits_are_words(typ as nat, 16);
}

/// Types of relocations can be told from their texts.
pub proof fn relocation_types_are_told_apart(a: u32, b: u32)
    requires
        a <= u16::MAX,
        b <= u16::MAX,
        pe_diff::type_text(a) == pe_diff::type_text(b),
    ensures
        a == b,
{
    reveal_strlit("ABSOLUTE");
    reveal_strlit("HIGH");
    reveal_strlit("LOW");
    reveal_strlit("HIGHLOW");
    reveal_strlit("HIGHADJ");
    reveal_strlit("DIR64");
    let x = pe_diff::type_text(a);
    let y = pe_diff::type_text(b);
    if a == 0 || a == 1 || a == 2 || a == 3 || a == 4 || a == 10 || b == 0 || b == 1 || b == 2 || b
        == 3 || b == 4 || b == 10 {
        assert(x.len() == y.len());
        assert(x[0] == y[0]);
        lemma_type_text(a);
        lemma_type_text(b);
        if x.len() > 4 {
            assert(x[4] == y[4]);
        }
    } else {
        let p = text::digits(a as nat, 16);
        let q = text::digits(b as nat, 16);
        assert(p =~= x.skip(2));
        assert(q =~= y.skip(2));
        digits_tell_numbers_apart(a as nat, b as nat, 16);
    }
}

/// The text of the base relocations of an image with blocks.
spec fn summary(n: nat, entries: nat, pages: nat, types: Seq<u32>) -> Seq<char> {
    "blocks="@ + text::decimal(n) + ",entries="@ + text::decimal(entries) + ",pages="@
        + text::decimal(pages) + ",types="@ + text::join(pe_diff::type_texts(types), "|"@)
}

/// A number behind a label, in front of a comma.
proof fn lemma_label_split(
    label: Seq<char>,
    a: nat,
    r: Seq<char>,
    b: nat,
    s: Seq<char>,
    whole: Seq<char>,
)
    requires
        whole == label + text::decimal(a) + seq![','] + r,
        whole == label + text::decimal(b) + seq![','] + s,
    ensures
        a == b,
        r == s,
{
    let x = text::decimal(a) + seq![','] + r;
    let y = text::decimal(b) + seq![','] + s;
    assert(x =~= whole.skip(label.len() as int));
    assert(y =~= whole.skip(label.len() as int));
    lemma_digits_are_words(a, 10);
    lemma_digits_are_words(b, 10);
    lemma_split_first(text::decimal(a), r, text::decimal(b), s, ',');
    digits_tell_numbers_apart(a, b, 10);
}

/// A list of labelled parts with commas between them, taken apart at the commas.
proof fn lemma_shape(
    a: Seq<char>,
    b: Seq<char>,
    c: Seq<char>,
    d: Seq<char>,
    e: Seq<char>,
    f: Seq<char>,
    g: Seq<char>,
)
    ensures
        a + (seq![','] + b) + c + (seq![','] + d) + e + (seq![','] + f) + g == a + seq![','] + (b + c
            + seq![','] + (d + e + seq![','] + (f + g))),
{
    assert(a + (seq![','] + b) + c + (seq![','] + d) + e + (seq![','] + f) + g =~= a + seq![','] + (b
        + c + seq![','] + (d + e + seq![','] + (f + g))));
}

/// The parts of a summary can be told from it.
proof fn lemma_summary(
    n: nat,
    entries: nat,
    pages: nat,
    types: Seq<u32>,
    m: nat,
    more_entries: nat,
    more_pages: nat,
    more_types: Seq<u32>,
)
    requires
        summary(n, entries, pages, types) == summary(m, more_entries, more_pages, more_types),
        pe_diff::are_short(types),
        pe_diff::are_short(more_types),
    ensures
        n == m,
        entries == more_entries,
        pages == more_pages,
        types == more_types,
{
    reveal_strlit("blocks=");
    reveal_strlit(",entries=");
    reveal_strlit(",pages=");
    reveal_strlit(",types=");
    reveal_strlit("|");
    let whole = summary(n, entries, pages, types);
    let entries_label = ",entries="@.skip(1);
    let pages_label = ",pages="@.skip(1);
    let types_label = ",types="@.skip(1);
    assert(",entries="@ =~= seq![','] + entries_label);
    assert(",pages="@ =~= seq![','] + pages_label);
    assert(",types="@ =~= seq![','] + types_label);
    let x = text::join(pe_diff::type_texts(types), "|"@);
    let y = text::join(pe_diff::type_texts(more_types), "|"@);
    let x2 = pages_label + text::decimal(pages) + seq![','] + (types_label + x);
    let y2 = pages_label + text::decimal(more_pages) + seq![','] + (types_label + y);
    let x1 = entries_label + text::decimal(entries) + seq![','] + x2;
    let y1 = entries_label + text::decimal(more_entries) + seq![','] + y2;
    lemma_shape(
        "blocks="@ + text::decimal(n),
        entries_label,
        text::decimal(entries),
        pages_label,
        text::decimal(pages),
        types_label,
        x,
    );
    lemma_shape(
        "blocks="@ + text::decimal(m),
        entries_label,
        text::decimal(more_entries),
        pages_label,
        text::decimal(more_pages),
        types_label,
        y,
    );
    lemma_label_split("blocks="@, n, x1, m, y1, whole);
    lemma_label_split(entries_label, entries, x2, more_entries, y2, x1);
    lemma_label_split(pages_label, pages, types_label + x, more_pages, types_label + y, x2);
    assert(x =~= (types_label + x).skip(types_label.len() as int));
    assert(y =~= (types_label + y).skip(types_label.len() as int));
    assert("|"@ =~= seq!['|']);
    lemma_types(types, more_types);
}

/// Lists of types can be told from their texts.
proof fn lemma_types(a: Seq<u32>, b: Seq<u32>)
    requires
        pe_diff::are_short(a),
        pe_diff::are_short(b),
        text::join(pe_diff::type_texts(a), seq!['|']) == text::join(
            pe_diff::type_texts(b),
            seq!['|'],
        ),
    ensures
        a == b,
{
    let x = pe_diff::type_texts(a);
    let y = pe_diff::type_texts(b);
    assert forall|k: int| 0 <= k < x.len() implies diff_laws::is_plain(#[trigger] x[k])
        && x[k].len() > 0 by {
        assert(a[k] <= u16::MAX);
        lemma_type_text(a[k]);
    }
    assert forall|k: int| 0 <= k < y.len() implies diff_laws::is_plain(#[trigger] y[k])
        && y[k].len() > 0 by {
        assert(b[k] <= u16::MAX);
        lemma_type_text(b[k]);
    }
    lemma_joined_len(x, x.len() as int);
    lemma_joined_len(y, y.len() as int);
    if a.len() > 0 && b.len() > 0 {
        diff_laws::lemma_joined_tell_apart(x, x.len() as int, y, y.len() as int);
        assert forall|k: int| 0 <= k < a.len() implies #[trigger] a[k] == b[k] by {
            assert(x[k] == y[k]);
            assert(a[k] <= u16::MAX);
            assert(b[k] <= u16::MAX);
            relocation_types_are_told_apart(a[k], b[k]);
        }
        assert(a =~= b);
    } else {
        assert(a =~= b);
    }
}

/// Joined texts are not empty.
proof fn lemma_joined_len(list: Seq<Seq<char>>, n: int)
    requires
        0 <= n <= list.len(),
        forall|k: int| 0 <= k < list.len() ==> (#[trigger] list[k]).len() > 0,
    ensures
        text::joined(list, seq!['|'], n).len() > 0 <==> n > 0,
    decreases n,
{
    if n == 1 {
        assert(list[0].len() > 0);
    } else if n > 1 {
        lemma_joined_len(list, n - 1);
    }
}

/// The types that are listed fit in 16 bits.
proof fn lemma_types_short(blocks: Seq<RelocationBlockView>, n: int)
    requires
        0 <= n <= blocks.len(),
    ensures
        pe_diff::are_short(pe_diff::type_list(blocks, n)),
{
    diff_laws::types_are_listed_once(blocks, n);
    let list = pe_diff::type_list(blocks, n);
    assert forall|k: int| 0 <= k < list.len() implies #[trigger] list[k] <= u16::MAX by {
        assert(list.contains(list[k]));
        let (i, m) = choose|i: int, m: int|
            #[trigger] diff_laws::has_type(blocks, i, m, list[k]) && i < n;
        assert(blocks[i].types[m] == list[k]);
    }
}

/// Two images with base relocations are described alike exactly if they have as many blocks, as
/// many entries, as many pages, and the same types of entries. One without is described as having
/// none.
pub proof fn base_relocations_are_told_apart(
    a: Seq<RelocationBlockView>,
    b: Seq<RelocationBlockView>,
)
    requires
        a.len() > 0,
        b.len() > 0,
    ensures
        pe_diff::relocation_text(Some(a)) == pe_diff::relocation_text(Some(b)) <==> {
            &&& a.len() == b.len()
            &&& pe_diff::entry_count(a, a.len() as int) == pe_diff::entry_count(b, b.len() as int)
            &&& pe_diff::page_list(a, a.len() as int).len() == pe_diff::page_list(
                b,
                b.len() as int,
            ).len()
            &&& pe_diff::type_list(a, a.len() as int) == pe_diff::type_list(b, b.len() as int)
        },
        pe_diff::relocation_text(None) == "absent"@,
        pe_diff::relocation_text(Some(Seq::empty())) == "absent"@,
        pe_diff::relocation_text(Some(a)) != "absent"@,
{
    let n = a.len() as int;
    let m = b.len() as int;
    lemma_types_short(a, n);
    lemma_types_short(b, m);
    reveal_strlit("absent");
    reveal_strlit("blocks=");
    assert(pe_diff::relocation_text(Some(a)) == summary(
        a.len(),
        pe_diff::entry_count(a, n),
        pe_diff::page_list(a, n).len(),
        pe_diff::type_list(a, n),
    ));
    assert(pe_diff::relocation_text(Some(b)) == summary(
        b.len(),
        pe_diff::entry_count(b, m),
        pe_diff::page_list(b, m).len(),
        pe_diff::type_list(b, m),
    ));
    assert(pe_diff::relocation_text(Some(a))[0] == 'b');
    assert("absent"@[0] == 'a');
    if pe_diff::relocation_text(Some(a)) == pe_diff::relocation_text(Some(b)) {
        lemma_summary(
            a.len(),
            pe_diff::entry_count(a, n),
            pe_diff::page_list(a, n).len(),
            pe_diff::type_list(a, n),
            b.len(),
            pe_diff::entry_count(b, m),
            pe_diff::page_list(b, m).len(),
            pe_diff::type_list(b, m),
        );
    }
}

// ---- facts ----

/// The model of facts holds all that they hold.
pub proof fn fact_models_hold_everything(facts: PeFacts)
    ensures
        facts@.machine == facts.machine,
        facts@.subsystem == facts.subsystem,
        facts@.characteristics == facts.characteristics@,
        facts@.has_entry == facts.has_entry,
        facts@.sections == text::texts(facts.sections@),
        facts@.data_directories == text::texts(facts.data_directories@),
        facts@.imports == text::texts(facts.imports@),
        facts@.base_relocations == facts.base_relocations@,
{
}

/// The facts of an image can be had exactly if all parts that are compared can be read and the base
/// relocations can be counted. Else the failure says which part it is, the headers first, then the
/// imports, then the base relocations.
pub proof fn facts_need_all_parts(data: Seq<u8>)
    ensures
        pe_diff::facts_of(data) is Ok <==> diff_laws::is_comparable(data),
        pe_diff::facts_of(data) matches Err(failure) ==> if pe_file::pe_header_of(data) is None
            || pe_file::pe_sections_of(data) is None {
            failure == FactsFailure::Parse
        } else if pe_file::pe_imports_of(data) is None {
            failure == FactsFailure::Imports
        } else if pe_file::pe_blocks_of(data) is None {
            failure == FactsFailure::BaseRelocations
        } else {
            failure == FactsFailure::TooManyRelocations
        },
{
}

/// What an image holds can be told from its facts. If two images have the same facts, they have the
/// same machine and subsystem, the same of the characteristics that are compared, both an entry
/// point or both none, the same sections, the same data directories that say where something is,
/// the same imports, and base relocations that are described alike.
pub proof fn equal_facts_mean_equal_parts(a: Seq<u8>, b: Seq<u8>)
    requires
        pe_diff::facts_of(a) is Ok,
        pe_diff::facts_of(a) == pe_diff::facts_of(b),
    ensures
        diff_laws::is_comparable(a),
        diff_laws::is_comparable(b),
        ({
            let x = pe_file::pe_header_of(a)->0;
            let y = pe_file::pe_header_of(b)->0;
            &&& x.machine == y.machine
            &&& x.subsystem == y.subsystem
            &&& x.characteristics & 0x2023 == y.characteristics & 0x2023
            &&& (x.entry_point == 0) == (y.entry_point == 0)
        }),
        diff_laws::section_texts(pe_file::pe_sections_of(a)->0) == diff_laws::section_texts(
            pe_file::pe_sections_of(b)->0,
        ),
        forall|k: usize|
            k < 15 ==> ({
                let x = #[trigger] pe_file::pe_directory_of(a, k);
                let y = pe_file::pe_directory_of(b, k);
                (x is Some && (x->0).0 != 0 && (x->0).1 != 0) == (y is Some && (y->0).0 != 0 && (
                y->0).1 != 0)
            }),
        diff_laws::import_texts(pe_file::pe_imports_of(a)->0) == diff_laws::import_texts(
            pe_file::pe_imports_of(b)->0,
        ),
        pe_diff::relocation_text(pe_file::pe_blocks_of(a)->0) == pe_diff::relocation_text(
            pe_file::pe_blocks_of(b)->0,
        ),
{
    let x = pe_file::pe_header_of(a)->0;
    let y = pe_file::pe_header_of(b)->0;
    let facts = pe_diff::facts_of(a)->Ok_0;
    assert(facts.characteristics == text::labelled(pe_diff::file_labels(x.characteristics)));
    assert(facts.characteristics == text::labelled(pe_diff::file_labels(y.characteristics)));
    diff_laws::file_flags_tell_apart(x.characteristics, y.characteristics);
    lemma_equal_sections(pe_file::pe_sections_of(a)->0, pe_file::pe_sections_of(b)->0);
    diff_laws::import_lists_hold_their_texts(pe_file::pe_imports_of(a)->0);
    diff_laws::import_lists_hold_their_texts(pe_file::pe_imports_of(b)->0);
    assert forall|k: usize| k < 15 implies ({
        let x = #[trigger] pe_file::pe_directory_of(a, k);
        let y = pe_file::pe_directory_of(b, k);
        (x is Some && (x->0).0 != 0 && (x->0).1 != 0) == (y is Some && (y->0).0 != 0 && (y->0).1
            != 0)
    }) by {
        let p = pe_diff::named_directories(a);
        let q = pe_diff::named_directories(b);
        present_directories_are_named(p, k as int);
        present_directories_are_named(q, k as int);
        assert(p[k as int] == pe_file::pe_directory_of(a, k));
        assert(q[k as int] == pe_file::pe_directory_of(b, k));
    }
}

/// Equal lists of sections hold the same texts.
proof fn lemma_equal_sections(a: Seq<PeSectionView>, b: Seq<PeSectionView>)
    requires
        pe_diff::section_list(a) == pe_diff::section_list(b),
    ensures
        diff_laws::section_texts(a) == diff_laws::section_texts(b),
{
    let leq = |x: Seq<char>, y: Seq<char>| text::text_le(x, y);
    text::texts_are_ordered();
    let first = Seq::new(a.len(), |k: int| pe_diff::section_text(a[k]));
    let second = Seq::new(b.len(), |k: int| pe_diff::section_text(b[k]));
    first.lemma_sort_by_ensures(leq);
    second.lemma_sort_by_ensures(leq);
}

// ---- reports ----

/// The models of reports hold all that these hold.
pub proof fn report_models_hold_everything(report: Report, diff: Diff)
    ensures
        report@.len() == report.diffs@.len(),
        forall|k: int|
            0 <= k < report.diffs@.len() ==> #[trigger] report@[k] == report.diffs@[k]@,
        diff@.key == diff.key@,
        diff@.values == (match diff.values {
            DiffValues::PerObject(values) => text::texts(values@),
        }),
{
}

/// Whether the first value is equal to no other.
pub open spec fn is_alone(values: Seq<Seq<char>>) -> bool {
    forall|k: int| 1 <= k < values.len() ==> #[trigger] values[k] != values[0]
}

/// Whether a report holds a difference under the key, with these values.
pub open spec fn reports(diffs: Seq<DiffView>, key: Seq<char>, values: Seq<Seq<char>>) -> bool {
    exists|k: int|
        0 <= k < diffs.len() && (#[trigger] diffs[k]).key == key && diffs[k].values == values
}

/// Whether a report holds a difference under the key.
pub open spec fn mentions(diffs: Seq<DiffView>, key: Seq<char>) -> bool {
    exists|k: int| 0 <= k < diffs.len() && (#[trigger] diffs[k]).key == key
}

/// The length and the fourth character of the key of an aspect.
spec fn key_mark(key: Seq<char>) -> (int, char) {
    (key.len() as int, key[3])
}

/// The keys of the aspects.
proof fn lemma_keys(k: int)
    requires
        0 <= k < 8,
    ensures
        key_mark(pe_diff::aspect_key(pe_diff::aspects()[k])) == seq![
            (10int, 'm'),
            (12, 's'),
            (18, 'c'),
            (8, 'e'),
            (11, 's'),
            (19, 'd'),
            (10, 'i'),
            (19, 'b'),
        ][k],
{
    reveal_strlit("pe.machine");
    reveal_strlit("pe.subsystem");
    reveal_strlit("pe.characteristics");
    reveal_strlit("pe.entry");
    reveal_strlit("pe.sections");
    reveal_strlit("pe.data-directories");
    reveal_strlit("pe.imports");
    reveal_strlit("pe.base-relocations");
}

/// What is reported once the first `n` aspects have been compared.
proof fn lemma_compared(facts: Seq<FactsView>, n: int, m: int)
    requires
        0 <= n <= 8,
        0 <= m < 8,
    ensures
        ({
            let diffs = pe_diff::compared(facts, n);
            let key = pe_diff::aspect_key(pe_diff::aspects()[m]);
            let values = pe_diff::aspect_texts(facts, pe_diff::aspects()[m]);
            &&& mentions(diffs, key) <==> m < n && is_alone(values)
            &&& mentions(diffs, key) ==> reports(diffs, key, values)
        }),
    decreases n,
{
    if n > 0 {
        lemma_compared(facts, n - 1, m);
        let before = pe_diff::compared(facts, n - 1);
        let diffs = pe_diff::compared(facts, n);
        let key = pe_diff::aspect_key(pe_diff::aspects()[m]);
        let values = pe_diff::aspect_texts(facts, pe_diff::aspects()[m]);
        let own_key = pe_diff::aspect_key(pe_diff::aspects()[n - 1]);
        let own_values = pe_diff::aspect_texts(facts, pe_diff::aspects()[n - 1]);
        lemma_keys(m);
        lemma_keys(n - 1);
        assert(m != n - 1 ==> key != own_key);
        assert(report::first_recurs(own_values) == !is_alone(own_values));
        if mentions(before, key) {
            let k = choose|k: int| 0 <= k < before.len() && (#[trigger] before[k]).key == key;
            assert(diffs[k] == before[k]);
            let l = choose|l: int|
                0 <= l < before.len() && (#[trigger] before[l]).key == key && before[l].values
                    == values;
            assert(diffs[l] == before[l]);
        }
        if m == n - 1 && is_alone(values) {
            assert(diffs[before.len() as int].key == key);
        }
        if mentions(diffs, key) {
            let k = choose|k: int| 0 <= k < diffs.len() && (#[trigger] diffs[k]).key == key;
            if k < before.len() {
                assert(before[k] == diffs[k]);
            }
        }
    }
}

/// Each aspect is reported exactly if the first image agrees with no other on it, with one value
/// for each image.
pub proof fn each_aspect_is_reported_where_it_differs(facts: Seq<FactsView>)
    ensures
        ({
            let diffs = pe_diff::compared(facts, pe_diff::aspects().len() as int);
            let n = facts.len();
            &&& is_reported_if_alone(
                diffs,
                "pe.machine"@,
                Seq::new(n, |k: int| text::hexadecimal(facts[k].machine as nat)),
            )
            &&& is_reported_if_alone(
                diffs,
                "pe.subsystem"@,
                Seq::new(n, |k: int| text::hexadecimal(facts[k].subsystem as nat)),
            )
            &&& is_reported_if_alone(
                diffs,
                "pe.characteristics"@,
                Seq::new(n, |k: int| facts[k].characteristics),
            )
            &&& is_reported_if_alone(
                diffs,
                "pe.entry"@,
                Seq::new(
                    n,
                    |k: int|
                        if facts[k].has_entry {
                            "present"@
                        } else {
                            "absent"@
                        },
                ),
            )
            &&& is_reported_if_alone(
                diffs,
                "pe.sections"@,
                Seq::new(n, |k: int| text::join(facts[k].sections, ","@)),
            )
            &&& is_reported_if_alone(
                diffs,
                "pe.data-directories"@,
                Seq::new(n, |k: int| text::join(facts[k].data_directories, ","@)),
            )
            &&& is_reported_if_alone(
                diffs,
                "pe.imports"@,
                Seq::new(n, |k: int| text::join(facts[k].imports, ","@)),
            )
            &&& is_reported_if_alone(
                diffs,
                "pe.base-relocations"@,
                Seq::new(n, |k: int| facts[k].base_relocations),
            )
        }),
{
    let n = facts.len();
    lemma_compared(facts, 8, 0);
    lemma_compared(facts, 8, 1);
    lemma_compared(facts, 8, 2);
    lemma_compared(facts, 8, 3);
    lemma_compared(facts, 8, 4);
    lemma_compared(facts, 8, 5);
    lemma_compared(facts, 8, 6);
    lemma_compared(facts, 8, 7);
    assert(pe_diff::aspect_texts(facts, Aspect::Machine) =~= Seq::new(
        n,
        |k: int| text::hexadecimal(facts[k].machine as nat),
    ));
    assert(pe_diff::aspect_texts(facts, Aspect::Subsystem) =~= Seq::new(
        n,
        |k: int| text::hexadecimal(facts[k].subsystem as nat),
    ));
    assert(pe_diff::aspect_texts(facts, Aspect::Characteristics) =~= Seq::new(
        n,
        |k: int| facts[k].characteristics,
    ));
    assert(pe_diff::aspect_texts(facts, Aspect::Entry) =~= Seq::new(
        n,
        |k: int|
            if facts[k].has_entry {
                "present"@
            } else {
                "absent"@
            },
    ));
    assert(pe_diff::aspect_texts(facts, Aspect::Sections) =~= Seq::new(
        n,
        |k: int| text::join(facts[k].sections, ","@),
    ));
    assert(pe_diff::aspect_texts(facts, Aspect::DataDirectories) =~= Seq::new(
        n,
        |k: int| text::join(facts[k].data_directories, ","@),
    ));
    assert(pe_diff::aspect_texts(facts, Aspect::Imports) =~= Seq::new(
        n,
        |k: int| text::join(facts[k].imports, ","@),
    ));
    assert(pe_diff::aspect_texts(facts, Aspect::BaseRelocations) =~= Seq::new(
        n,
        |k: int| facts[k].base_relocations,
    ));
}

/// Whether a report mentions the key exactly if the first of the values is alone, and then with
/// these values.
pub open spec fn is_reported_if_alone(
    diffs: Seq<DiffView>,
    key: Seq<char>,
    values: Seq<Seq<char>>,
) -> bool {
    &&& mentions(diffs, key) <==> is_alone(values)
    &&& mentions(diffs, key) ==> reports(diffs, key, values)
}

/// Images that differ in what is compared are reported as different: where the first of two images
/// has another machine, another subsystem, other characteristics, or an entry point that the second
/// has not, or the other way round, the report says so.
pub proof fn images_that_differ_are_reported(a: Seq<u8>, b: Seq<u8>)
    requires
        pe_diff::report_of(false, seq![a, b]) is Ok,
    ensures
        ({
            let diffs = pe_diff::report_of(false, seq![a, b])->Ok_0;
            let x = pe_file::pe_header_of(a)->0;
            let y = pe_file::pe_header_of(b)->0;
            &&& mentions(diffs, "pe.machine"@) <==> x.machine != y.machine
            &&& mentions(diffs, "pe.subsystem"@) <==> x.subsystem != y.subsystem
            &&& mentions(diffs, "pe.characteristics"@) <==> x.characteristics & 0x2023
                != y.characteristics & 0x2023
            &&& mentions(diffs, "pe.entry"@) <==> (x.entry_point == 0) != (y.entry_point == 0)
        }),
{
    let files = seq![a, b];
    diff_laws::lemma_all_facts(files, 2, 0);
    diff_laws::lemma_all_facts(files, 2, 1);
    let facts = pe_diff::all_facts(files, 2)->Ok_0;
    assert(pe_diff::facts_of(a)->Ok_0 == facts[0]);
    assert(pe_diff::facts_of(b)->Ok_0 == facts[1]);
    let x = pe_file::pe_header_of(a)->0;
    let y = pe_file::pe_header_of(b)->0;
    each_aspect_is_reported_where_it_differs(facts);
    diff_laws::file_flags_tell_apart(x.characteristics, y.characteristics);
    reveal_strlit("present");
    reveal_strlit("absent");
    assert("present"@.len() == 7 && "absent"@.len() == 6);
    let machines = Seq::new(2, |k: int| text::hexadecimal(facts[k].machine as nat));
    let subsystems = Seq::new(2, |k: int| text::hexadecimal(facts[k].subsystem as nat));
    let flags = Seq::new(2, |k: int| facts[k].characteristics);
    let entries = Seq::new(
        2,
        |k: int|
            if facts[k].has_entry {
                "present"@
            } else {
                "absent"@
            },
    );
    lemma_two_values(machines);
    lemma_two_values(subsystems);
    lemma_two_values(flags);
    lemma_two_values(entries);
    if machines[0] == machines[1] {
        lemma_hexadecimal(facts[0].machine as nat, facts[1].machine as nat);
    }
    if subsystems[0] == subsystems[1] {
        lemma_hexadecimal(facts[0].subsystem as nat, facts[1].subsystem as nat);
    }
}

/// The first of two values is alone exactly if they differ.
proof fn lemma_two_values(values: Seq<Seq<char>>)
    requires
        values.len() == 2,
    ensures
        is_alone(values) <==> values[0] != values[1],
{
}

/// Numbers can be told from their hexadecimal texts.
proof fn lemma_hexadecimal(a: nat, b: nat)
    requires
        text::hexadecimal(a) == text::hexadecimal(b),
    ensures
        a == b,
{
    assert(text::digits(a, 16) =~= text::hexadecimal(a).skip(2));
    assert(text::digits(b, 16) =~= text::hexadecimal(b).skip(2));
    digits_tell_numbers_apart(a, b, 16);
}

// ---- what can be compared ----

/// The first file that is no image.
proof fn lemma_first_unreadable(files: Seq<Seq<u8>>, from: int)
    requires
        0 <= from <= files.len() <= usize::MAX,
        forall|k: int| 0 <= k < from ==> pe_file::pe_header_of(#[trigger] files[k]) is Some,
    ensures
        match pe_diff::first_unreadable(files, from) {
            Some(file) => {
                &&& file < files.len()
                &&& pe_file::pe_header_of(files[file as int]) is None
                &&& forall|k: int|
                    0 <= k < file ==> pe_file::pe_header_of(#[trigger] files[k]) is Some
            },
            None => forall|k: int|
                0 <= k < files.len() ==> pe_file::pe_header_of(#[trigger] files[k]) is Some,
        },
    decreases files.len() - from,
{
    if from < files.len() && pe_file::pe_header_of(files[from]) is Some {
        lemma_first_unreadable(files, from + 1);
    }
}

/// The facts of the first files.
proof fn lemma_facts(files: Seq<Seq<u8>>, n: int)
    requires
        0 <= n <= files.len() <= usize::MAX,
    ensures
        match pe_diff::all_facts(files, n) {
            Ok(list) => list.len() == n && forall|k: int|
                0 <= k < n ==> pe_diff::facts_of(#[trigger] files[k]) == Ok::<
                    FactsView,
                    FactsFailure,
                >(list[k]),
            Err(DiffError::Facts { file, failure }) => {
                &&& file < n
                &&& pe_diff::facts_of(files[file as int]) == Err::<FactsView, FactsFailure>(failure)
                &&& forall|k: int|
                    0 <= k < file ==> pe_diff::facts_of(#[trigger] files[k]) is Ok
            },
            Err(_) => false,
        },
    decreases n,
{
    if n > 0 {
        lemma_facts(files, n - 1);
        if pe_diff::all_facts(files, n) is Ok {
            let before = pe_diff::all_facts(files, n - 1)->Ok_0;
            let list = pe_diff::all_facts(files, n)->Ok_0;
            assert forall|k: int| 0 <= k < n implies pe_diff::facts_of(#[trigger] files[k]) == Ok::<
                FactsView,
                FactsFailure,
            >(list[k]) by {
                if k < n - 1 {
                    assert(list[k] == before[k]);
                }
            }
        }
    }
}

/// Files can be compared exactly if no coverage is asked for, there are at least two of them, and
/// the facts of each can be had; what is reported is then what the facts of each file give. Else
/// the error is, in this order, that coverage was asked for, which file is the first that is no
/// image, that there are too few files, or which file is the first whose facts cannot be had, and
/// why.
pub proof fn comparisons_need_two_images(coverage: bool, files: Seq<Seq<u8>>)
    requires
        files.len() <= usize::MAX,
    ensures
        ({
            let r = pe_diff::report_of(coverage, files);
            let all_are_images = forall|k: int|
                0 <= k < files.len() ==> pe_file::pe_header_of(#[trigger] files[k]) is Some;
            &&& r is Ok <==> !coverage && files.len() >= 2 && forall|k: int|
                0 <= k < files.len() ==> pe_diff::facts_of(#[trigger] files[k]) is Ok
            &&& r matches Err(e) ==> {
                &&& coverage <==> e == DiffError::Coverage
                &&& e == DiffError::TooFewFiles <==> !coverage && all_are_images && files.len() < 2
                &&& e matches DiffError::Facts { file, failure } ==> {
                    &&& file < files.len()
                    &&& pe_diff::facts_of(files[file as int]) == Err::<FactsView, FactsFailure>(
                        failure,
                    )
                    &&& if all_are_images {
                        forall|k: int|
                            0 <= k < file ==> pe_diff::facts_of(#[trigger] files[k]) is Ok
                    } else {
                        failure == FactsFailure::Parse && forall|k: int|
                            0 <= k < file ==> pe_file::pe_header_of(#[trigger] files[k]) is Some
                    }
                }
            }
            &&& r matches Ok(diffs) ==> exists|facts: Seq<FactsView>|
                {
                    &&& facts.len() == files.len()
                    &&& diffs == #[trigger] pe_diff::compared(facts, 8)
                    &&& forall|k: int|
                        0 <= k < files.len() ==> pe_diff::facts_of(#[trigger] files[k]) == Ok::<
                            FactsView,
                            FactsFailure,
                        >(facts[k])
                }
        }),
{
    lemma_first_unreadable(files, 0);
    lemma_facts(files, files.len() as int);
    if pe_diff::first_unreadable(files, 0) is Some {
        let file = pe_diff::first_unreadable(files, 0)->0;
        assert(pe_diff::facts_of(files[file as int]) is Err);
    }
    if pe_diff::report_of(coverage, files) is Ok {
        let facts = pe_diff::all_facts(files, files.len() as int)->Ok_0;
        assert(pe_diff::report_of(coverage, files)->Ok_0 == pe_diff::compared(facts, 8));
    }
}

} // verus!
