//! Text: numbers, lists and order.
use vstd::prelude::*;
use vstd::relations;
use vstd::seq_lib;

verus! {

/// The texts of a list of strings.
pub open spec fn texts(list: Seq<String>) -> Seq<Seq<char>> {
    Seq::new(list.len(), |k: int| list[k]@)
}

// ---- numbers ----

/// The character of a digit below sixteen.
pub open spec fn digit(d: int) -> char {
    seq!['0', '1', '2', '3', '4', '5', '6', '7', '8', '9', 'a', 'b', 'c', 'd', 'e', 'f'][d]
}

/// The digits of a number, without leading zeros.
pub open spec fn digits(n: nat, base: nat) -> Seq<char>
    decreases n,
{
    if base < 2 || n < base {
        seq![digit(n as int)]
    } else {
        proof {
            assert(n / base < n) by (nonlinear_arith)
                requires
                    2 <= base,
                    base <= n,
            ;
        }
        digits(n / base, base).push(digit(n as int % base as int))
    }
}

/// A number in decimal.
pub open spec fn decimal(n: nat) -> Seq<char> {
    digits(n, 10)
}

/// A number in hexadecimal, behind `0x`.
pub open spec fn hexadecimal(n: nat) -> Seq<char> {
    seq!['0', 'x'] + digits(n, 16)
}

/// Returns the text of a digit below sixteen.
fn digit_text(d: u64) -> (r: &'static str)
    requires
        d < 16,
    ensures
        r@ == seq![digit(d as int)],
{
    proof {
        reveal_strlit("0");
        reveal_strlit("1");
        reveal_strlit("2");
        reveal_strlit("3");
        reveal_strlit("4");
        reveal_strlit("5");
        reveal_strlit("6");
        reveal_strlit("7");
        reveal_strlit("8");
        reveal_strlit("9");
        reveal_strlit("a");
        reveal_strlit("b");
        reveal_strlit("c");
        reveal_strlit("d");
        reveal_strlit("e");
        reveal_strlit("f");
    }
    let r = match d {
        0 => "0",
        1 => "1",
        2 => "2",
        3 => "3",
        4 => "4",
        5 => "5",
        6 => "6",
        7 => "7",
        8 => "8",
        9 => "9",
        10 => "a",
        11 => "b",
        12 => "c",
        13 => "d",
        14 => "e",
        _ => "f",
    };
    assert(r@ =~= seq![digit(d as int)]);
    r
}

/// Returns the digits of a number, without leading zeros.
fn digits_text(n: u64, base: u64) -> (r: String)
    requires
        2 <= base <= 16,
    ensures
        r@ == digits(n as nat, base as nat),
    decreases n,
{
    if n < base {
        let r = digit_text(n).to_owned();
        r
    } else {
        assert(n / base < n) by (nonlinear_arith)
            requires
                2 <= base,
                0 < n,
        ;
        let mut r = digits_text(n / base, base);
        assert(n % base < base) by (nonlinear_arith)
            requires
                2 <= base,
        ;
        let last = digit_text(n % base);
        let ghost front = r@;
        r.append(last);
        assert(r@ =~= front.push(digit(n as int % base as int)));
        r
    }
}

/// Returns a number in decimal.
pub fn decimal_text(n: u64) -> (r: String)
    ensures
        r@ == decimal(n as nat),
{
    digits_text(n, 10)
}

/// Returns a number in hexadecimal, behind `0x`.
pub fn hexadecimal_text(n: u64) -> (r: String)
    ensures
        r@ == hexadecimal(n as nat),
{
    proof {
        reveal_strlit("0x");
    }
    let mut r = "0x".to_owned();
    let rest = digits_text(n, 16);
    r.append(rest.as_str());
    assert(r@ =~= hexadecimal(n as nat));
    r
}

// ---- lists ----

/// The first `n` texts, with a separator between each two of them.
pub open spec fn joined(list: Seq<Seq<char>>, separator: Seq<char>, n: int) -> Seq<char>
    decreases n,
{
    if n <= 0 {
        Seq::empty()
    } else if n == 1 {
        list[0]
    } else {
        joined(list, separator, n - 1) + separator + list[n - 1]
    }
}

/// All texts, with a separator between each two of them.
pub open spec fn join(list: Seq<Seq<char>>, separator: Seq<char>) -> Seq<char> {
    joined(list, separator, list.len() as int)
}

/// Returns all texts, with a separator between each two of them.
pub fn join_texts(list: &Vec<String>, separator: &str) -> (r: String)
    ensures
        r@ == join(texts(list@), separator@),
{
    let ghost all = texts(list@);
    let mut r = String::new();
    let mut n: usize = 0;
    while n < list.len()
        invariant
            n <= list@.len(),
            all == texts(list@),
            r@ == joined(all, separator@, n as int),
        decreases list@.len() - n,
    {
        assert(all[n as int] == list@[n as int]@);
        let ghost before = r@;
        if n > 0 {
            r.append(separator);
        }
        r.append(list[n].as_str());
        assert(r@ =~= joined(all, separator@, n + 1));
        n += 1;
    }
    r
}

/// The label, if it applies.
pub open spec fn label_if(applies: bool, label: Seq<char>) -> Seq<Seq<char>> {
    if applies {
        seq![label]
    } else {
        Seq::empty()
    }
}

/// Appends the label, if it applies.
pub fn push_label(list: &mut Vec<String>, applies: bool, label: &str)
    ensures
        texts(final(list)@) == texts(old(list)@) + label_if(applies, label@),
{
    let ghost before = texts(list@);
    if applies {
        list.push(label.to_owned());
    }
    assert(texts(list@) =~= before + label_if(applies, label@));
}

/// The labels with bars between them, or `none`.
pub open spec fn labelled(labels: Seq<Seq<char>>) -> Seq<char> {
    if labels.len() == 0 {
        "none"@
    } else {
        join(labels, "|"@)
    }
}

/// Returns the labels with bars between them, or `none`.
pub fn labels_text(labels: &Vec<String>) -> (r: String)
    ensures
        r@ == labelled(texts(labels@)),
{
    if labels.len() == 0 {
        "none".to_owned()
    } else {
        join_texts(labels, "|")
    }
}

// ---- order ----

/// Whether a text does not come behind another, character by character.
pub open spec fn text_le(a: Seq<char>, b: Seq<char>) -> bool
    decreases a.len(),
{
    if a.len() == 0 {
        true
    } else if b.len() == 0 {
        false
    } else if a[0] == b[0] {
        text_le(a.drop_first(), b.drop_first())
    } else {
        (a[0] as int) < (b[0] as int)
    }
}

/// The texts in order.
pub open spec fn sorted_texts(list: Seq<Seq<char>>) -> Seq<Seq<char>> {
    list.sort_by(|a: Seq<char>, b: Seq<char>| text_le(a, b))
}

/// Of two texts that do not come behind each other, both are the same.
proof fn lemma_text_le_antisymmetric(a: Seq<char>, b: Seq<char>)
    requires
        text_le(a, b),
        text_le(b, a),
    ensures
        a == b,
    decreases a.len(),
{
    if a.len() > 0 && b.len() > 0 {
        let rest_a = a.drop_first();
        let rest_b = b.drop_first();
        assert(a[0] == b[0]);
        lemma_text_le_antisymmetric(rest_a, rest_b);
        assert(a.len() == rest_a.len() + 1);
        assert forall|i: int| 0 <= i < a.len() implies a[i] == b[i] by {
            if i > 0 {
                assert(a[i] == rest_a[i - 1]);
                assert(b[i] == rest_b[i - 1]);
            }
        }
    }
    assert(a =~= b);
}

/// Order carries over.
proof fn lemma_text_le_transitive(a: Seq<char>, b: Seq<char>, c: Seq<char>)
    requires
        text_le(a, b),
        text_le(b, c),
    ensures
        text_le(a, c),
    decreases a.len(),
{
    if a.len() > 0 && b.len() > 0 && c.len() > 0 && a[0] == b[0] && b[0] == c[0] {
        lemma_text_le_transitive(a.drop_first(), b.drop_first(), c.drop_first());
    }
}

/// Any two texts are in order one way or the other.
proof fn lemma_text_le_total(a: Seq<char>, b: Seq<char>)
    ensures
        text_le(a, b) || text_le(b, a),
    decreases a.len(),
{
    if a.len() > 0 && b.len() > 0 && a[0] == b[0] {
        lemma_text_le_total(a.drop_first(), b.drop_first());
    }
}

/// Texts are in a total order.
pub proof fn texts_are_ordered()
    ensures
        relations::total_ordering(|a: Seq<char>, b: Seq<char>| text_le(a, b)),
{
    let leq = |a: Seq<char>, b: Seq<char>| text_le(a, b);
    assert forall|a: Seq<char>| #[trigger] leq(a, a) by {
        lemma_text_le_total(a, a);
    }
    assert forall|a: Seq<char>, b: Seq<char>| #[trigger] leq(a, b) && #[trigger] leq(
        b,
        a,
    ) implies a == b by {
        lemma_text_le_antisymmetric(a, b);
    }
    assert forall|a: Seq<char>, b: Seq<char>, c: Seq<char>| #[trigger] leq(a, b) && #[trigger] leq(
        b,
        c,
    ) implies leq(a, c) by {
        lemma_text_le_transitive(a, b, c);
    }
    assert forall|a: Seq<char>, b: Seq<char>| #[trigger] leq(a, b) || #[trigger] leq(b, a) by {
        lemma_text_le_total(a, b);
    }
}

/// Sorts a list of strings with `slice::sort`. The result has the same strings, in the order of
/// their characters.
#[verifier::external_body]
pub(crate) fn sort_strings(list: &mut Vec<String>)
    ensures
        texts(final(list)@).to_multiset() == texts(old(list)@).to_multiset(),
        forall|i: int, j: int|
            0 <= i < j < final(list)@.len() ==> text_le(
                #[trigger] final(list)@[i]@,
                #[trigger] final(list)@[j]@,
            ),
{
    list.sort();
}

/// Sorts a list of strings.
pub fn sort_texts(list: &mut Vec<String>)
    ensures
        texts(final(list)@) == sorted_texts(texts(old(list)@)),
{
    let ghost before = texts(list@);
    sort_strings(list);
    proof {
        let leq = |a: Seq<char>, b: Seq<char>| text_le(a, b);
        texts_are_ordered();
        before.lemma_sort_by_ensures(leq);
        assert(relations::sorted_by(texts(list@), leq)) by {
            assert forall|i: int, j: int| 0 <= i < j < texts(list@).len() implies #[trigger] leq(
                texts(list@)[i],
                texts(list@)[j],
            ) by {
                assert(text_le(list@[i]@, list@[j]@));
            }
        }
        seq_lib::lemma_sorted_unique(texts(list@), sorted_texts(before), leq);
    }
}

/// A character with an ASCII capital made small.
pub open spec fn small(c: char) -> char {
    if 'A' <= c && c <= 'Z' {
        (c as int + 32) as char
    } else {
        c
    }
}

/// A text with its ASCII capitals made small.
pub open spec fn small_text(text: Seq<char>) -> Seq<char> {
    Seq::new(text.len(), |i: int| small(text[i]))
}

/// Returns a text with its ASCII capitals made small, by `str::to_ascii_lowercase`: each of the
/// letters `A` to `Z` becomes the small letter, all other characters stay.
#[verifier::external_body]
pub(crate) fn lowercase(text: &str) -> (r: String)
    ensures
        r@ == small_text(text@),
{
    text.to_ascii_lowercase()
}

} // verus!
