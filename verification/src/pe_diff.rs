//! Comparison of linked PE images.
use crate::coff;
use crate::coff::text_lossy;
use crate::pe;
use crate::pe_file;
use crate::pe_file::{
    read_blocks, read_directory, read_header, read_imports, read_sections, PeHeader, PeSection,
    PeSectionView, RelocationBlock, RelocationBlockView,
};
use crate::report;
use crate::report::{report_values, DiffView, FileReport, Report};
use crate::text;
use crate::text::{
    decimal_text, hexadecimal_text, join_texts, labels_text, lowercase, push_label, sort_texts,
};
use crate::text_set;
use crate::text_set::{insert_text, list_texts, new_text_set, TextSet};
use vstd::prelude::*;

verus! {

// ---- flags ----

/// The file characteristics that are compared.
pub const COMPARED_FILE_FLAGS: u16 = 0x2023;

/// The section flags that are compared.
pub const COMPARED_SECTION_FLAGS: u32 = 0xE200_00E0;

/// The labels of file characteristics.
pub open spec fn file_labels(characteristics: u16) -> Seq<Seq<char>> {
    text::label_if(characteristics & pe::IMAGE_FILE_EXECUTABLE_IMAGE != 0, "executable"@)
        + text::label_if(characteristics & pe::IMAGE_FILE_DLL != 0, "dll"@) + text::label_if(
        characteristics & pe::IMAGE_FILE_LARGE_ADDRESS_AWARE != 0,
        "large-address-aware"@,
    ) + text::label_if(
        characteristics & pe::IMAGE_FILE_RELOCS_STRIPPED != 0,
        "relocs-stripped"@,
    )
}

/// Returns file characteristics as text.
pub fn file_characteristics(characteristics: u16) -> (r: String)
    ensures
        r@ == text::labelled(file_labels(characteristics)),
{
    let mut out: Vec<String> = Vec::new();
    push_label(
        &mut out,
        characteristics & pe::IMAGE_FILE_EXECUTABLE_IMAGE != 0,
        "executable",
    );
    push_label(&mut out, characteristics & pe::IMAGE_FILE_DLL != 0, "dll");
    push_label(
        &mut out,
        characteristics & pe::IMAGE_FILE_LARGE_ADDRESS_AWARE != 0,
        "large-address-aware",
    );
    push_label(
        &mut out,
        characteristics & pe::IMAGE_FILE_RELOCS_STRIPPED != 0,
        "relocs-stripped",
    );
    assert(text::texts(out@) =~= file_labels(characteristics));
    labels_text(&out)
}

/// The labels of section flags.
pub open spec fn section_labels(characteristics: u32) -> Seq<Seq<char>> {
    text::label_if(characteristics & pe::IMAGE_SCN_CNT_CODE != 0, "code"@) + text::label_if(
        characteristics & pe::IMAGE_SCN_CNT_INITIALIZED_DATA != 0,
        "idata"@,
    ) + text::label_if(characteristics & pe::IMAGE_SCN_CNT_UNINITIALIZED_DATA != 0, "bss"@)
        + text::label_if(characteristics & pe::IMAGE_SCN_MEM_EXECUTE != 0, "x"@)
        + text::label_if(characteristics & pe::IMAGE_SCN_MEM_READ != 0, "r"@) + text::label_if(
        characteristics & pe::IMAGE_SCN_MEM_WRITE != 0,
        "w"@,
    ) + text::label_if(characteristics & pe::IMAGE_SCN_MEM_DISCARDABLE != 0, "discard"@)
}

/// Returns section flags as text.
pub fn section_characteristics(characteristics: u32) -> (r: String)
    ensures
        r@ == text::labelled(section_labels(characteristics)),
{
    let mut out: Vec<String> = Vec::new();
    push_label(&mut out, characteristics & pe::IMAGE_SCN_CNT_CODE != 0, "code");
    push_label(&mut out, characteristics & pe::IMAGE_SCN_CNT_INITIALIZED_DATA != 0, "idata");
    push_label(&mut out, characteristics & pe::IMAGE_SCN_CNT_UNINITIALIZED_DATA != 0, "bss");
    push_label(&mut out, characteristics & pe::IMAGE_SCN_MEM_EXECUTE != 0, "x");
    push_label(&mut out, characteristics & pe::IMAGE_SCN_MEM_READ != 0, "r");
    push_label(&mut out, characteristics & pe::IMAGE_SCN_MEM_WRITE != 0, "w");
    push_label(&mut out, characteristics & pe::IMAGE_SCN_MEM_DISCARDABLE != 0, "discard");
    assert(text::texts(out@) =~= section_labels(characteristics));
    labels_text(&out)
}

// ---- sections ----

/// A section as text: its name and its flags.
pub open spec fn section_text(section: PeSectionView) -> Seq<char> {
    (match section.name {
        Some(name) => name,
        None => "<invalid>"@,
    }) + seq![':'] + (match section.characteristics {
        Some(characteristics) => text::labelled(section_labels(characteristics)),
        None => "unknown"@,
    })
}

/// Sections as texts, in order.
pub open spec fn section_list(sections: Seq<PeSectionView>) -> Seq<Seq<char>> {
    text::sorted_texts(Seq::new(sections.len(), |k: int| section_text(sections[k])))
}

/// Returns the sections as texts, in order.
pub fn sections(list: &Vec<PeSection>) -> (out: Vec<String>)
    ensures
        text::texts(out@) == section_list(pe_file::section_views(list@)),
{
    let ghost views = pe_file::section_views(list@);
    let mut out: Vec<String> = Vec::new();
    let mut k: usize = 0;
    while k < list.len()
        invariant
            k <= list@.len(),
            views == pe_file::section_views(list@),
            text::texts(out@) == Seq::new(k as nat, |l: int| section_text(views[l])),
        decreases list@.len() - k,
    {
        let section = &list[k];
        assert(views[k as int] == section@);
        let mut entry = match &section.name {
            Some(name) => name.clone(),
            None => "<invalid>".to_owned(),
        };
        let flags = match section.characteristics {
            Some(characteristics) => section_characteristics(characteristics),
            None => "unknown".to_owned(),
        };
        proof {
            reveal_strlit(":");
        }
        entry.append(":");
        entry.append(flags.as_str());
        assert(entry@ =~= section_text(section@));
        let ghost before = text::texts(out@);
        out.push(entry);
        assert(text::texts(out@) =~= before.push(section_text(views[k as int])));
        assert(text::texts(out@) =~= Seq::new(
            (k + 1) as nat,
            |l: int| section_text(views[l]),
        ));
        k += 1;
    }
    assert(text::texts(out@) =~= Seq::new(views.len(), |l: int| section_text(views[l])));
    sort_texts(&mut out);
    out
}

// ---- data directories ----

/// The name of a data directory.
pub open spec fn directory_text(index: int) -> Seq<char> {
    if index == 0 {
        "export"@
    } else if index == 1 {
        "import"@
    } else if index == 2 {
        "resource"@
    } else if index == 3 {
        "exception"@
    } else if index == 4 {
        "security"@
    } else if index == 5 {
        "basereloc"@
    } else if index == 6 {
        "debug"@
    } else if index == 7 {
        "architecture"@
    } else if index == 8 {
        "globalptr"@
    } else if index == 9 {
        "tls"@
    } else if index == 10 {
        "load-config"@
    } else if index == 11 {
        "bound-import"@
    } else if index == 12 {
        "iat"@
    } else if index == 13 {
        "delay-import"@
    } else {
        "com-descriptor"@
    }
}

/// Returns the name of a data directory.
pub fn directory_name(index: usize) -> (r: String)
    requires
        index < pe::NAMED_DIRECTORIES,
    ensures
        r@ == directory_text(index as int),
{
    let name = if index == 0 {
        "export"
    } else if index == 1 {
        "import"
    } else if index == 2 {
        "resource"
    } else if index == 3 {
        "exception"
    } else if index == 4 {
        "security"
    } else if index == 5 {
        "basereloc"
    } else if index == 6 {
        "debug"
    } else if index == 7 {
        "architecture"
    } else if index == 8 {
        "globalptr"
    } else if index == 9 {
        "tls"
    } else if index == 10 {
        "load-config"
    } else if index == 11 {
        "bound-import"
    } else if index == 12 {
        "iat"
    } else if index == 13 {
        "delay-import"
    } else {
        "com-descriptor"
    };
    name.to_owned()
}

/// Whether a data directory says where something is.
pub open spec fn is_present(directory: Option<(u32, u32)>) -> bool {
    directory is Some && (directory->0).0 != 0 && (directory->0).1 != 0
}

/// The names of those of the first `n` data directories that say where something is.
pub open spec fn directory_list(directories: Seq<Option<(u32, u32)>>, n: int) -> Seq<Seq<char>>
    decreases n,
{
    if n <= 0 {
        Seq::empty()
    } else {
        directory_list(directories, n - 1) + text::label_if(
            is_present(directories[n - 1]),
            directory_text(n - 1),
        )
    }
}

/// Returns the names of the data directories that say where something is.
pub fn data_directories(directories: &Vec<Option<(u32, u32)>>) -> (out: Vec<String>)
    requires
        directories@.len() <= pe::NAMED_DIRECTORIES,
    ensures
        text::texts(out@) == directory_list(directories@, directories@.len() as int),
{
    let mut out: Vec<String> = Vec::new();
    assert(text::texts(out@) =~= Seq::<Seq<char>>::empty());
    let mut n: usize = 0;
    while n < directories.len()
        invariant
            n <= directories@.len() <= pe::NAMED_DIRECTORIES,
            text::texts(out@) == directory_list(directories@, n as int),
        decreases directories@.len() - n,
    {
        let present = match directories[n] {
            Some((virtual_address, size)) => virtual_address != 0 && size != 0,
            None => false,
        };
        let name = directory_name(n);
        push_label(&mut out, present, name.as_str());
        n += 1;
    }
    out
}

// ---- imports ----

/// An import as text: the library in small letters, and the name.
pub open spec fn import_text(import: (Seq<u8>, Seq<u8>)) -> Seq<char> {
    text::small_text(coff::lossy_text(import.0)) + seq!['!'] + coff::lossy_text(import.1)
}

/// The first `n` imports as texts, each once.
pub open spec fn distinct_imports(imports: Seq<(Seq<u8>, Seq<u8>)>, n: int) -> Seq<Seq<char>>
    decreases n,
{
    if n <= 0 {
        Seq::empty()
    } else {
        let before = distinct_imports(imports, n - 1);
        let own = import_text(imports[n - 1]);
        if before.contains(own) {
            before
        } else {
            before.push(own)
        }
    }
}

/// Imports as texts, each once, in order.
pub open spec fn import_list(imports: Seq<(Seq<u8>, Seq<u8>)>) -> Seq<Seq<char>> {
    text::sorted_texts(distinct_imports(imports, imports.len() as int))
}

/// Every import is listed once.
pub proof fn lemma_distinct_imports(imports: Seq<(Seq<u8>, Seq<u8>)>, n: int)
    ensures
        distinct_imports(imports, n).no_duplicates(),
    decreases n,
{
    if n > 0 {
        lemma_distinct_imports(imports, n - 1);
    }
}

/// Lists of the same texts, each once, are sorted to one list.
pub proof fn lemma_same_texts_sort_alike(a: Seq<Seq<char>>, b: Seq<Seq<char>>)
    requires
        a.no_duplicates(),
        b.no_duplicates(),
        a.to_set() == b.to_set(),
    ensures
        text::sorted_texts(a) == text::sorted_texts(b),
{
    let leq = |x: Seq<char>, y: Seq<char>| text::text_le(x, y);
    text::texts_are_ordered();
    a.lemma_multiset_has_no_duplicates();
    b.lemma_multiset_has_no_duplicates();
    assert(a.to_multiset() =~= b.to_multiset()) by {
        broadcast use vstd::seq_lib::group_to_multiset_ensures;

        assert forall|x: Seq<char>| a.to_multiset().count(x) == b.to_multiset().count(x) by {
            assert(a.to_set().contains(x) <==> a.contains(x));
            assert(b.to_set().contains(x) <==> b.contains(x));
            assert(a.contains(x) <==> a.to_multiset().count(x) > 0);
            assert(b.contains(x) <==> b.to_multiset().count(x) > 0);
            assert(a.to_multiset().contains(x) ==> a.to_multiset().count(x) == 1);
            assert(b.to_multiset().contains(x) ==> b.to_multiset().count(x) == 1);
        }
    }
    a.lemma_sort_by_ensures(leq);
    b.lemma_sort_by_ensures(leq);
    vstd::seq_lib::lemma_sorted_unique(text::sorted_texts(a), text::sorted_texts(b), leq);
}

/// Returns the imports as texts, each once, in order.
pub fn imports(list: &Vec<(Vec<u8>, Vec<u8>)>) -> (out: Vec<String>)
    ensures
        text::texts(out@) == import_list(pe_file::import_views(list@)),
{
    let ghost views = pe_file::import_views(list@);
    let mut set: TextSet = new_text_set();
    assert(text_set::text_set_contents(set) =~= distinct_imports(views, 0).to_set());
    let mut n: usize = 0;
    while n < list.len()
        invariant
            n <= list@.len(),
            views == pe_file::import_views(list@),
            text_set::text_set_contents(set) == distinct_imports(views, n as int).to_set(),
        decreases list@.len() - n,
    {
        let import = &list[n];
        assert(views[n as int] == (import.0@, import.1@));
        let library = text_lossy(import.0.as_slice());
        let mut entry = lowercase(library.as_str());
        let name = text_lossy(import.1.as_slice());
        proof {
            reveal_strlit("!");
        }
        entry.append("!");
        entry.append(name.as_str());
        assert(entry@ =~= import_text(views[n as int]));
        let ghost own = entry@;
        let ghost before = distinct_imports(views, n as int);
        insert_text(&mut set, entry);
        proof {
            let after = distinct_imports(views, n + 1);
            assert(before.to_set().insert(own) =~= after.to_set()) by {
                if before.contains(own) {
                    assert(before.to_set().contains(own));
                } else {
                    assert forall|x: Seq<char>| #[trigger]
                        before.to_set().insert(own).contains(x) == after.to_set().contains(x) by {
                        if x == own {
                            assert(after[before.len() as int] == own);
                        } else if before.contains(x) {
                            let k = before.index_of(x);
                            assert(after[k] == x);
                        } else if after.contains(x) {
                            let k = after.index_of(x);
                            assert(before[k] == x);
                        }
                    }
                }
            }
        }
        n += 1;
    }
    let mut out = list_texts(set);
    proof {
        lemma_distinct_imports(views, n as int);
        lemma_same_texts_sort_alike(text::texts(out@), distinct_imports(views, n as int));
    }
    sort_texts(&mut out);
    out
}

// ---- base relocations ----

/// Where a number belongs in a rising list, at the `k`-th place or behind it.
pub open spec fn place_of(list: Seq<u32>, value: u32, k: int) -> int
    decreases list.len() - k,
{
    if k < 0 || k >= list.len() || value <= list[k] {
        k
    } else {
        place_of(list, value, k + 1)
    }
}

/// The rising list with a number put in its place, unless it is there already.
pub open spec fn inserted(list: Seq<u32>, value: u32) -> Seq<u32> {
    let k = place_of(list, value, 0);
    if k < list.len() && list[k] == value {
        list
    } else {
        list.insert(k, value)
    }
}

/// Whether all numbers of a list fit in 16 bits.
pub open spec fn are_short(list: Seq<u32>) -> bool {
    forall|k: int| 0 <= k < list.len() ==> #[trigger] list[k] <= u16::MAX
}

/// Puts a number in its place in a rising list, unless it is there already.
pub fn insert_distinct(list: &mut Vec<u32>, value: u32)
    ensures
        final(list)@ == inserted(old(list)@, value),
        are_short(old(list)@) && value <= u16::MAX ==> are_short(final(list)@),
{
    let mut k: usize = 0;
    while k < list.len() && list[k] < value
        invariant
            k <= list@.len(),
            list@ == old(list)@,
            place_of(list@, value, 0) == place_of(list@, value, k as int),
        decreases list@.len() - k,
    {
        k += 1;
    }
    if k < list.len() && list[k] == value {
        return ;
    }
    list.insert(k, value);
}

/// The pages of the first `n` blocks, rising, each once.
pub open spec fn page_list(blocks: Seq<RelocationBlockView>, n: int) -> Seq<u32>
    decreases n,
{
    if n <= 0 {
        Seq::empty()
    } else {
        inserted(page_list(blocks, n - 1), blocks[n - 1].page)
    }
}

/// The list with the first `m` types added, except those that only pad.
pub open spec fn with_types(list: Seq<u32>, types: Seq<u16>, m: int) -> Seq<u32>
    decreases m,
{
    if m <= 0 {
        list
    } else if types[m - 1] == pe::IMAGE_REL_BASED_ABSOLUTE {
        with_types(list, types, m - 1)
    } else {
        inserted(with_types(list, types, m - 1), types[m - 1] as u32)
    }
}

/// The types in the first `n` blocks, rising, each once.
pub open spec fn type_list(blocks: Seq<RelocationBlockView>, n: int) -> Seq<u32>
    decreases n,
{
    if n <= 0 {
        Seq::empty()
    } else {
        with_types(
            type_list(blocks, n - 1),
            blocks[n - 1].types,
            blocks[n - 1].types.len() as int,
        )
    }
}

/// The number of entries among the first `m` types that do not only pad.
pub open spec fn entries_among(types: Seq<u16>, m: int) -> nat
    decreases m,
{
    if m <= 0 {
        0
    } else if types[m - 1] == pe::IMAGE_REL_BASED_ABSOLUTE {
        entries_among(types, m - 1)
    } else {
        entries_among(types, m - 1) + 1
    }
}

/// The number of entries in the first `n` blocks that do not only pad.
pub open spec fn entry_count(blocks: Seq<RelocationBlockView>, n: int) -> nat
    decreases n,
{
    if n <= 0 {
        0
    } else {
        entry_count(blocks, n - 1) + entries_among(
            blocks[n - 1].types,
            blocks[n - 1].types.len() as int,
        )
    }
}

/// The number of entries only grows.
proof fn lemma_entry_count_grows(blocks: Seq<RelocationBlockView>, n: int, k: int)
    requires
        0 <= n <= k,
    ensures
        entry_count(blocks, n) <= entry_count(blocks, k),
    decreases k,
{
    if n < k {
        lemma_entry_count_grows(blocks, n, k - 1);
    }
}

/// The number of entries only grows.
proof fn lemma_entries_grow(types: Seq<u16>, m: int, k: int)
    requires
        0 <= m <= k,
    ensures
        entries_among(types, m) <= entries_among(types, k),
    decreases k,
{
    if m < k {
        lemma_entries_grow(types, m, k - 1);
    }
}

/// The name of a type of base relocation.
pub open spec fn type_text(typ: u32) -> Seq<char> {
    if typ == pe::IMAGE_REL_BASED_ABSOLUTE {
        "ABSOLUTE"@
    } else if typ == pe::IMAGE_REL_BASED_HIGH {
        "HIGH"@
    } else if typ == pe::IMAGE_REL_BASED_LOW {
        "LOW"@
    } else if typ == pe::IMAGE_REL_BASED_HIGHLOW {
        "HIGHLOW"@
    } else if typ == pe::IMAGE_REL_BASED_HIGHADJ {
        "HIGHADJ"@
    } else if typ == pe::IMAGE_REL_BASED_DIR64 {
        "DIR64"@
    } else {
        text::hexadecimal(typ as nat)
    }
}

/// Returns the name of a type of base relocation.
pub fn relocation_type_name(typ: u16) -> (r: String)
    ensures
        r@ == type_text(typ as u32),
{
    if typ == pe::IMAGE_REL_BASED_ABSOLUTE {
        "ABSOLUTE".to_owned()
    } else if typ == pe::IMAGE_REL_BASED_HIGH {
        "HIGH".to_owned()
    } else if typ == pe::IMAGE_REL_BASED_LOW {
        "LOW".to_owned()
    } else if typ == pe::IMAGE_REL_BASED_HIGHLOW {
        "HIGHLOW".to_owned()
    } else if typ == pe::IMAGE_REL_BASED_HIGHADJ {
        "HIGHADJ".to_owned()
    } else if typ == pe::IMAGE_REL_BASED_DIR64 {
        "DIR64".to_owned()
    } else {
        hexadecimal_text(typ as u64)
    }
}

/// The names of types of base relocations.
pub open spec fn type_texts(types: Seq<u32>) -> Seq<Seq<char>> {
    Seq::new(types.len(), |k: int| type_text(types[k]))
}

/// Base relocations as text: how many blocks, entries and pages there are, and which types.
pub open spec fn relocation_text(blocks: Option<Seq<RelocationBlockView>>) -> Seq<char> {
    match blocks {
        None => "absent"@,
        Some(list) => {
            let n = list.len() as int;
            if n == 0 {
                "absent"@
            } else {
                "blocks="@ + text::decimal(n as nat) + ",entries="@ + text::decimal(
                    entry_count(list, n),
                ) + ",pages="@ + text::decimal(page_list(list, n).len()) + ",types="@
                    + text::join(type_texts(type_list(list, n)), "|"@)
            }
        },
    }
}

/// The blocks that were read, as a model.
pub open spec fn optional_blocks(blocks: Option<Vec<RelocationBlock>>) -> Option<
    Seq<RelocationBlockView>,
> {
    match blocks {
        Some(list) => Some(pe_file::block_views(list@)),
        None => None,
    }
}

/// The number of entries in all blocks.
pub open spec fn total_entries(blocks: Option<Seq<RelocationBlockView>>) -> nat {
    match blocks {
        Some(list) => entry_count(list, list.len() as int),
        None => 0,
    }
}

/// Returns base relocations as text, if the number of their entries is a machine integer.
pub fn base_relocations(blocks: &Option<Vec<RelocationBlock>>) -> (r: Option<String>)
    ensures
        match r {
            Some(summary) => total_entries(optional_blocks(*blocks)) <= usize::MAX && summary@
                == relocation_text(optional_blocks(*blocks)),
            None => total_entries(optional_blocks(*blocks)) > usize::MAX,
        },
{
    let list = match blocks {
        Some(list) => list,
        None => return Some("absent".to_owned()),
    };
    let ghost views = pe_file::block_views(list@);
    if list.len() == 0 {
        return Some("absent".to_owned());
    }
    let mut entries: usize = 0;
    let mut pages: Vec<u32> = Vec::new();
    let mut types: Vec<u32> = Vec::new();
    let mut n: usize = 0;
    while n < list.len()
        invariant
            n <= list@.len(),
            blocks is Some,
            *list == blocks->0,
            views == pe_file::block_views(list@),
            entries == entry_count(views, n as int),
            pages@ == page_list(views, n as int),
            types@ == type_list(views, n as int),
            are_short(types@),
        decreases list@.len() - n,
    {
        let block = &list[n];
        assert(views[n as int] == block@);
        proof {
            lemma_entry_count_grows(views, n + 1, views.len() as int);
        }
        insert_distinct(&mut pages, block.page);
        let mut m: usize = 0;
        while m < block.types.len()
            invariant
                n < list@.len(),
                m <= block.types@.len(),
                blocks is Some,
                *list == blocks->0,
                views == pe_file::block_views(list@),
                views[n as int] == block@,
                entry_count(views, n + 1) <= entry_count(views, views.len() as int),
                entries == entry_count(views, n as int) + entries_among(block.types@, m as int),
                types@ == with_types(type_list(views, n as int), block.types@, m as int),
                are_short(types@),
            decreases block.types@.len() - m,
        {
            let typ = block.types[m];
            proof {
                lemma_entries_grow(block.types@, m + 1, block.types@.len() as int);
            }
            if typ != pe::IMAGE_REL_BASED_ABSOLUTE {
                if entries == usize::MAX {
                    return None;
                }
                entries = entries + 1;
                insert_distinct(&mut types, typ as u32);
            }
            m += 1;
        }
        n += 1;
    }
    let mut names: Vec<String> = Vec::new();
    let mut k: usize = 0;
    while k < types.len()
        invariant
            k <= types@.len(),
            are_short(types@),
            text::texts(names@) == Seq::new(k as nat, |l: int| type_text(types@[l])),
        decreases types@.len() - k,
    {
        let ghost before = text::texts(names@);
        assert(types@[k as int] <= u16::MAX);
        let name = relocation_type_name(types[k] as u16);
        names.push(name);
        assert(text::texts(names@) =~= before.push(type_text(types@[k as int])));
        assert(text::texts(names@) =~= Seq::new((k + 1) as nat, |l: int| type_text(types@[l])));
        k += 1;
    }
    assert(text::texts(names@) =~= type_texts(types@));
    let mut r = "blocks=".to_owned();
    r.append(decimal_text(list.len() as u64).as_str());
    r.append(",entries=");
    r.append(decimal_text(entries as u64).as_str());
    r.append(",pages=");
    r.append(decimal_text(pages.len() as u64).as_str());
    r.append(",types=");
    r.append(join_texts(&names, "|").as_str());
    Some(r)
}

// ---- facts ----

/// What is compared of an image.
#[derive(Debug)]
pub struct PeFacts {
    pub machine: u16,
    pub subsystem: u16,
    pub characteristics: String,
    pub has_entry: bool,
    pub sections: Vec<String>,
    pub data_directories: Vec<String>,
    pub imports: Vec<String>,
    pub base_relocations: String,
}

/// Model of what is compared of an image.
#[verifier::ext_equal]
pub struct FactsView {
    pub machine: u16,
    pub subsystem: u16,
    pub characteristics: Seq<char>,
    pub has_entry: bool,
    pub sections: Seq<Seq<char>>,
    pub data_directories: Seq<Seq<char>>,
    pub imports: Seq<Seq<char>>,
    pub base_relocations: Seq<char>,
}

impl View for PeFacts {
    type V = FactsView;

    open spec fn view(&self) -> FactsView {
        FactsView {
            machine: self.machine,
            subsystem: self.subsystem,
            characteristics: self.characteristics@,
            has_entry: self.has_entry,
            sections: text::texts(self.sections@),
            data_directories: text::texts(self.data_directories@),
            imports: text::texts(self.imports@),
            base_relocations: self.base_relocations@,
        }
    }
}

/// Why the facts of an image cannot be had.
#[derive(Clone, Copy, PartialEq, Eq, Debug, Structural)]
pub enum FactsFailure {
    /// The file is no 64-bit PE image.
    Parse,
    /// The imports cannot be read.
    Imports,
    /// The base relocations cannot be read.
    BaseRelocations,
    /// There are more base relocations than can be counted.
    TooManyRelocations,
}

/// The data directories of an image that have a name.
pub open spec fn named_directories(data: Seq<u8>) -> Seq<Option<(u32, u32)>> {
    Seq::new(
        pe::NAMED_DIRECTORIES as nat,
        |k: int| pe_file::pe_directory_of(data, k as usize),
    )
}

/// The facts that what was read of an image amounts to.
pub open spec fn facts_from(
    header: PeHeader,
    sections: Seq<PeSectionView>,
    directories: Seq<Option<(u32, u32)>>,
    imports: Seq<(Seq<u8>, Seq<u8>)>,
    blocks: Option<Seq<RelocationBlockView>>,
) -> FactsView {
    FactsView {
        machine: header.machine,
        subsystem: header.subsystem,
        characteristics: text::labelled(file_labels(header.characteristics)),
        has_entry: header.entry_point != 0,
        sections: section_list(sections),
        data_directories: directory_list(directories, directories.len() as int),
        imports: import_list(imports),
        base_relocations: relocation_text(blocks),
    }
}

/// The facts of the image that the bytes stand for.
pub open spec fn facts_of(data: Seq<u8>) -> Result<FactsView, FactsFailure> {
    match (pe_file::pe_header_of(data), pe_file::pe_sections_of(data)) {
        (Some(header), Some(sections)) => match pe_file::pe_imports_of(data) {
            None => Err(FactsFailure::Imports),
            Some(imports) => match pe_file::pe_blocks_of(data) {
                None => Err(FactsFailure::BaseRelocations),
                Some(blocks) => if total_entries(blocks) > usize::MAX {
                    Err(FactsFailure::TooManyRelocations)
                } else {
                    Ok(facts_from(header, sections, named_directories(data), imports, blocks))
                },
            },
        },
        _ => Err(FactsFailure::Parse),
    }
}

/// The model of what `PeFacts::parse` returns.
pub open spec fn facts_result_view(r: Result<PeFacts, FactsFailure>) -> Result<
    FactsView,
    FactsFailure,
> {
    match r {
        Ok(facts) => Ok(facts@),
        Err(e) => Err(e),
    }
}

impl PeFacts {
    /// Returns the facts that what was read of an image amounts to, if the number of base
    /// relocations is a machine integer.
    pub fn from_parts(
        header: PeHeader,
        section_table: &Vec<PeSection>,
        directories: &Vec<Option<(u32, u32)>>,
        import_table: &Vec<(Vec<u8>, Vec<u8>)>,
        blocks: &Option<Vec<RelocationBlock>>,
    ) -> (r: Result<PeFacts, FactsFailure>)
        requires
            directories@.len() <= pe::NAMED_DIRECTORIES,
        ensures
            facts_result_view(r) == (if total_entries(optional_blocks(*blocks)) > usize::MAX {
                Err::<FactsView, FactsFailure>(FactsFailure::TooManyRelocations)
            } else {
                Ok(
                    facts_from(
                        header,
                        pe_file::section_views(section_table@),
                        directories@,
                        pe_file::import_views(import_table@),
                        optional_blocks(*blocks),
                    ),
                )
            }),
    {
        let base_relocations = match base_relocations(blocks) {
            Some(summary) => summary,
            None => return Err(FactsFailure::TooManyRelocations),
        };
        Ok(
            PeFacts {
                machine: header.machine,
                subsystem: header.subsystem,
                characteristics: file_characteristics(header.characteristics),
                has_entry: header.entry_point != 0,
                sections: sections(section_table),
                data_directories: data_directories(directories),
                imports: imports(import_table),
                base_relocations,
            },
        )
    }

    /// Returns the facts of the image that the bytes stand for.
    pub fn parse(data: &[u8]) -> (r: Result<PeFacts, FactsFailure>)
        ensures
            facts_result_view(r) == facts_of(data@),
    {
        let header = match read_header(data) {
            Some(header) => header,
            None => return Err(FactsFailure::Parse),
        };
        let section_table = match read_sections(data) {
            Some(list) => list,
            None => return Err(FactsFailure::Parse),
        };
        let mut directories: Vec<Option<(u32, u32)>> = Vec::new();
        let mut k: usize = 0;
        while k < pe::NAMED_DIRECTORIES
            invariant
                k <= pe::NAMED_DIRECTORIES,
                directories@ == named_directories(data@).take(k as int),
            decreases pe::NAMED_DIRECTORIES - k,
        {
            directories.push(read_directory(data, k));
            assert(directories@ =~= named_directories(data@).take(k + 1));
            k += 1;
        }
        assert(directories@ =~= named_directories(data@));
        let import_table = match read_imports(data) {
            Some(list) => list,
            None => return Err(FactsFailure::Imports),
        };
        let blocks = match read_blocks(data) {
            Some(blocks) => blocks,
            None => return Err(FactsFailure::BaseRelocations),
        };
        PeFacts::from_parts(header, &section_table, &directories, &import_table, &blocks)
    }
}

/// The models of a list of facts.
pub open spec fn facts_views(facts: Seq<PeFacts>) -> Seq<FactsView> {
    Seq::new(facts.len(), |k: int| facts[k]@)
}

// ---- comparison ----

/// Whether the texts are what the function gives for the facts.
pub open spec fn are_values<F: Fn(&PeFacts) -> String>(
    values: Seq<String>,
    facts: Seq<PeFacts>,
    value: F,
) -> bool {
    &&& values.len() == facts.len()
    &&& forall|k: int|
        0 <= k < facts.len() ==> call_ensures(value, (&facts[k],), #[trigger] values[k])
}

/// Adds a difference for one value of the facts, unless that of the first file is equal to that of
/// any other.
pub fn compare_value<F: Fn(&PeFacts) -> String>(
    report: &mut Report,
    facts: &[PeFacts],
    key: &str,
    value: F,
)
    requires
        facts@.len() > 0,
        forall|k: int|
            0 <= k < facts@.len() ==> call_requires(value, (&#[trigger] facts@[k],)),
    ensures
        exists|values: Seq<String>|
            #[trigger] are_values(values, facts@, value) && final(report)@ == report::with_values(
                old(report)@,
                key@,
                text::texts(values),
            ),
{
    let mut values: Vec<String> = Vec::new();
    let mut k: usize = 0;
    while k < facts.len()
        invariant
            k <= facts@.len(),
            values@.len() == k,
            forall|k: int|
            0 <= k < facts@.len() ==> call_requires(value, (&#[trigger] facts@[k],)),
            forall|l: int|
                0 <= l < k ==> call_ensures(value, (&facts@[l],), #[trigger] values@[l]),
        decreases facts@.len() - k,
    {
        values.push(value(&facts[k]));
        k += 1;
    }
    assert(are_values(values@, facts@, value));
    report_values(report, key, values);
}

/// What each fact is compared by.
#[derive(Clone, Copy, PartialEq, Eq, Debug, Structural)]
pub enum Aspect {
    Machine,
    Subsystem,
    Characteristics,
    Entry,
    Sections,
    DataDirectories,
    Imports,
    BaseRelocations,
}

/// The key under which an aspect is reported.
pub open spec fn aspect_key(aspect: Aspect) -> Seq<char> {
    match aspect {
        Aspect::Machine => "pe.machine"@,
        Aspect::Subsystem => "pe.subsystem"@,
        Aspect::Characteristics => "pe.characteristics"@,
        Aspect::Entry => "pe.entry"@,
        Aspect::Sections => "pe.sections"@,
        Aspect::DataDirectories => "pe.data-directories"@,
        Aspect::Imports => "pe.imports"@,
        Aspect::BaseRelocations => "pe.base-relocations"@,
    }
}

/// The text by which an aspect of an image is compared.
pub open spec fn aspect_text(facts: FactsView, aspect: Aspect) -> Seq<char> {
    match aspect {
        Aspect::Machine => text::hexadecimal(facts.machine as nat),
        Aspect::Subsystem => text::hexadecimal(facts.subsystem as nat),
        Aspect::Characteristics => facts.characteristics,
        Aspect::Entry => if facts.has_entry {
            "present"@
        } else {
            "absent"@
        },
        Aspect::Sections => text::join(facts.sections, ","@),
        Aspect::DataDirectories => text::join(facts.data_directories, ","@),
        Aspect::Imports => text::join(facts.imports, ","@),
        Aspect::BaseRelocations => facts.base_relocations,
    }
}

/// The texts by which an aspect of images is compared.
pub open spec fn aspect_texts(facts: Seq<FactsView>, aspect: Aspect) -> Seq<Seq<char>> {
    Seq::new(facts.len(), |k: int| aspect_text(facts[k], aspect))
}

/// The aspects, in the order in which they are compared.
pub open spec fn aspects() -> Seq<Aspect> {
    seq![
        Aspect::Machine,
        Aspect::Subsystem,
        Aspect::Characteristics,
        Aspect::Entry,
        Aspect::Sections,
        Aspect::DataDirectories,
        Aspect::Imports,
        Aspect::BaseRelocations,
    ]
}

/// The report once the first `n` aspects have been compared.
pub open spec fn compared(facts: Seq<FactsView>, n: int) -> Seq<DiffView>
    decreases n,
{
    if n <= 0 {
        Seq::empty()
    } else {
        report::with_values(
            compared(facts, n - 1),
            aspect_key(aspects()[n - 1]),
            aspect_texts(facts, aspects()[n - 1]),
        )
    }
}

/// Returns the text by which an aspect of an image is compared.
pub fn aspect_value(facts: &PeFacts, aspect: Aspect) -> (r: String)
    ensures
        r@ == aspect_text(facts@, aspect),
{
    match aspect {
        Aspect::Machine => hexadecimal_text(facts.machine as u64),
        Aspect::Subsystem => hexadecimal_text(facts.subsystem as u64),
        Aspect::Characteristics => facts.characteristics.clone(),
        Aspect::Entry => {
            if facts.has_entry {
                "present".to_owned()
            } else {
                "absent".to_owned()
            }
        },
        Aspect::Sections => join_texts(&facts.sections, ","),
        Aspect::DataDirectories => join_texts(&facts.data_directories, ","),
        Aspect::Imports => join_texts(&facts.imports, ","),
        Aspect::BaseRelocations => facts.base_relocations.clone(),
    }
}

/// Compares one aspect of images.
fn compare_aspect(report: &mut Report, facts: &[PeFacts], key: &str, aspect: Aspect)
    requires
        facts@.len() > 0,
    ensures
        final(report)@ == report::with_values(
            old(report)@,
            key@,
            aspect_texts(facts_views(facts@), aspect),
        ),
{
    let value = |f: &PeFacts| -> (r: String)
        ensures
            r@ == aspect_text(f@, aspect),
        { aspect_value(f, aspect) };
    compare_value(report, facts, key, value);
    proof {
        let values = choose|values: Seq<String>|
            #[trigger] are_values(values, facts@, value) && report@ == report::with_values(
                old(report)@,
                key@,
                text::texts(values),
            );
        assert(text::texts(values) =~= aspect_texts(facts_views(facts@), aspect));
    }
}

/// Compares all aspects of images.
pub fn compare_facts(facts: &[PeFacts]) -> (report: Report)
    requires
        facts@.len() > 0,
    ensures
        report@ == compared(facts_views(facts@), aspects().len() as int),
{
    let ghost views = facts_views(facts@);
    let mut report = Report::new();
    assert(report@ == compared(views, 0));
    compare_aspect(&mut report, facts, "pe.machine", Aspect::Machine);
    assert(report@ == compared(views, 1));
    compare_aspect(&mut report, facts, "pe.subsystem", Aspect::Subsystem);
    assert(report@ == compared(views, 2));
    compare_aspect(&mut report, facts, "pe.characteristics", Aspect::Characteristics);
    assert(report@ == compared(views, 3));
    compare_aspect(&mut report, facts, "pe.entry", Aspect::Entry);
    assert(report@ == compared(views, 4));
    compare_aspect(&mut report, facts, "pe.sections", Aspect::Sections);
    assert(report@ == compared(views, 5));
    compare_aspect(&mut report, facts, "pe.data-directories", Aspect::DataDirectories);
    assert(report@ == compared(views, 6));
    compare_aspect(&mut report, facts, "pe.imports", Aspect::Imports);
    assert(report@ == compared(views, 7));
    compare_aspect(&mut report, facts, "pe.base-relocations", Aspect::BaseRelocations);
    report
}

/// Why images cannot be compared.
#[derive(Clone, Copy, PartialEq, Eq, Debug, Structural)]
pub enum DiffError {
    /// Coverage was asked for.
    Coverage,
    /// There are fewer than two files.
    TooFewFiles,
    /// The facts of a file cannot be had.
    Facts { file: usize, failure: FactsFailure },
}

/// The first of the files from the `k`-th on that is no image.
pub open spec fn first_unreadable(files: Seq<Seq<u8>>, k: int) -> Option<usize>
    decreases files.len() - k,
{
    if k < 0 || k >= files.len() {
        None
    } else if pe_file::pe_header_of(files[k]) is None {
        Some(k as usize)
    } else {
        first_unreadable(files, k + 1)
    }
}

/// The facts of the first `n` files.
pub open spec fn all_facts(files: Seq<Seq<u8>>, n: int) -> Result<Seq<FactsView>, DiffError>
    decreases n,
{
    if n <= 0 {
        Ok(Seq::empty())
    } else {
        match all_facts(files, n - 1) {
            Err(e) => Err(e),
            Ok(list) => match facts_of(files[n - 1]) {
                Err(failure) => Err(DiffError::Facts { file: (n - 1) as usize, failure }),
                Ok(facts) => Ok(list.push(facts)),
            },
        }
    }
}

/// An error stays.
proof fn lemma_all_facts_error(files: Seq<Seq<u8>>, n: int, m: int)
    requires
        0 <= n <= m,
        all_facts(files, n) is Err,
    ensures
        all_facts(files, m) == all_facts(files, n),
    decreases m,
{
    if n < m {
        lemma_all_facts_error(files, n, m - 1);
    }
}

/// What differs between the files.
pub open spec fn report_of(coverage: bool, files: Seq<Seq<u8>>) -> Result<
    Seq<DiffView>,
    DiffError,
> {
    if coverage {
        Err(DiffError::Coverage)
    } else {
        match first_unreadable(files, 0) {
            Some(file) => Err(DiffError::Facts { file, failure: FactsFailure::Parse }),
            None => if files.len() < 2 {
                Err(DiffError::TooFewFiles)
            } else {
                match all_facts(files, files.len() as int) {
                    Err(e) => Err(e),
                    Ok(facts) => Ok(compared(facts, aspects().len() as int)),
                }
            },
        }
    }
}

/// The contents of a list of files.
pub open spec fn file_views(files: Seq<Vec<u8>>) -> Seq<Seq<u8>> {
    Seq::new(files.len(), |k: int| files[k]@)
}

/// The model of what `compare_images` returns.
pub open spec fn report_result_view(r: Result<Report, DiffError>) -> Result<
    Seq<DiffView>,
    DiffError,
> {
    match r {
        Ok(report) => Ok(report@),
        Err(e) => Err(e),
    }
}

/// Returns all that differs between the files; the first of them is compared with the others.
pub fn compare_images(coverage: bool, files: &[Vec<u8>]) -> (r: Result<Report, DiffError>)
    ensures
        report_result_view(r) == report_of(coverage, file_views(files@)),
{
    let ghost views = file_views(files@);
    if coverage {
        return Err(DiffError::Coverage);
    }
    let mut k: usize = 0;
    while k < files.len()
        invariant
            k <= files@.len(),
            !coverage,
            views == file_views(files@),
            first_unreadable(views, 0) == first_unreadable(views, k as int),
        decreases files@.len() - k,
    {
        assert(views[k as int] == files@[k as int]@);
        if read_header(files[k].as_slice()).is_none() {
            return Err(DiffError::Facts { file: k, failure: FactsFailure::Parse });
        }
        k += 1;
    }
    if files.len() < 2 {
        return Err(DiffError::TooFewFiles);
    }
    let mut facts: Vec<PeFacts> = Vec::new();
    assert(facts_views(facts@) =~= Seq::<FactsView>::empty());
    let mut n: usize = 0;
    while n < files.len()
        invariant
            n <= files@.len(),
            !coverage,
            views == file_views(files@),
            views.len() >= 2,
            first_unreadable(views, 0) is None,
            facts@.len() == n,
            all_facts(views, n as int) == Ok::<Seq<FactsView>, DiffError>(facts_views(facts@)),
        decreases files@.len() - n,
    {
        assert(views[n as int] == files@[n as int]@);
        match PeFacts::parse(files[n].as_slice()) {
            Ok(own) => {
                let ghost before = facts_views(facts@);
                facts.push(own);
                assert(facts_views(facts@) =~= before.push(own@));
            },
            Err(failure) => {
                proof {
                    lemma_all_facts_error(views, n + 1, views.len() as int);
                }
                return Err(DiffError::Facts { file: n, failure });
            },
        }
        n += 1;
    }
    Ok(compare_facts(facts.as_slice()))
}

/// Whether an aspect is reported under the key.
pub open spec fn is_aspect_key(key: Seq<char>) -> bool {
    exists|k: int| 0 <= k < aspects().len() && aspect_key(#[trigger] aspects()[k]) == key
}

/// Differences are reported under the keys of aspects.
proof fn lemma_keys_of_aspects(facts: Seq<FactsView>, n: int)
    requires
        0 <= n <= aspects().len(),
    ensures
        forall|k: int|
            0 <= k < compared(facts, n).len() ==> is_aspect_key(
                (#[trigger] compared(facts, n)[k]).key,
            ),
    decreases n,
{
    if n > 0 {
        lemma_keys_of_aspects(facts, n - 1);
        assert(is_aspect_key(aspect_key(aspects()[n - 1])));
        let before = compared(facts, n - 1);
        let after = compared(facts, n);
        assert forall|k: int| 0 <= k < after.len() implies is_aspect_key(
            (#[trigger] after[k]).key,
        ) by {
            if k < before.len() {
                assert(after[k] == before[k]);
            }
        }
    }
}

/// Returns the differences between the files that are kept, with the names and the paths of the
/// files; the first of them is compared with the others.
pub fn report_from_config<P, K: Fn(&str) -> bool>(
    coverage: bool,
    files: &[Vec<u8>],
    names: Vec<String>,
    paths: Vec<P>,
    keeps: &K,
) -> (r: Result<FileReport<P>, DiffError>)
    requires
        forall|key: &str| is_aspect_key(key@) ==> #[trigger] call_requires(keeps, (key,)),
    ensures
        match report_of(coverage, file_views(files@)) {
            Err(error) => r == Err::<FileReport<P>, DiffError>(error),
            Ok(diffs) => {
                &&& r matches Ok(found)
                &&& found.names == names
                &&& found.paths == paths
                &&& !found.coverage
                &&& report::is_kept_part(*keeps, diffs, found.report@)
            },
        },
{
    let mut report = match compare_images(coverage, files) {
        Ok(report) => report,
        Err(error) => return Err(error),
    };
    proof {
        let all = all_facts(file_views(files@), files@.len() as int)->Ok_0;
        lemma_keys_of_aspects(all, aspects().len() as int);
        assert(report::can_be_asked(*keeps, report@));
    }
    report.keep(keeps);
    Ok(FileReport { names, paths, coverage: false, report })
}

} // verus!
