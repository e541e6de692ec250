//! What every failure leaves behind.
use crate::args::PeArgs;
use crate::bytes;
use crate::error::{LinkError, LoadErrorView};
use crate::image_laws;
use crate::input::ObjectView;
use crate::pe_archive;
use crate::pe_archive::ArchiveView;
use crate::pe_layout::LayoutView;
use crate::pe_reloc;
use crate::pe_section::{OutputView, SectionContribution};
use crate::pe_symbols;
use crate::pe_writer;
use crate::pe_writer::HeaderField;
use crate::placement_laws;
use vstd::prelude::*;

verus! {

// ---- headers ----

/// The bytes of the headers that are written to a buffer of so many bytes: those of the DOS header,
/// the signature, the COFF header, the optional header up to its data directories, these, and each
/// section header, up to the first that does not fit. Where the sizes of the sections have no sum,
/// the COFF header is the last.
pub open spec fn whole_headers(have: int, sizes_fit: bool) -> int {
    if have < 64 {
        0
    } else if have < 68 {
        64
    } else if have < 88 {
        68
    } else if have < 200 || !sizes_fit {
        88
    } else if have < 328 {
        200
    } else {
        328 + (have - 328) / 40 * 40
    }
}

/// Fields depend on the bytes at their places only.
proof fn lemma_fields_alike(
    a: Seq<u8>,
    b: Seq<u8>,
    fields: Seq<HeaderField>,
    n: int,
    i: int,
)
    requires
        0 <= i < a.len(),
        i < b.len(),
        a[i] == b[i],
    ensures
        pe_writer::with_fields(a, fields, n)[i] == pe_writer::with_fields(b, fields, n)[i],
    decreases n,
{
    if n > 0 {
        lemma_fields_alike(a, b, fields, n - 1, i);
        pe_writer::lemma_with_fields_len(a, fields, n - 1);
        pe_writer::lemma_with_fields_len(b, fields, n - 1);
    }
}

/// Fields that start further on leave a byte alone.
proof fn lemma_later_fields(buf: Seq<u8>, args: PeArgs, layout: LayoutView, n: int, m: int, i: int)
    requires
        0 <= n <= m <= 34,
        0 <= i < buf.len(),
        forall|k: int|
            n <= k < m ==> i < (#[trigger] image_laws::header_fields(args, layout)[k]).offset,
    ensures
        pe_writer::with_fields(buf, image_laws::header_fields(args, layout), n)[i]
            == pe_writer::with_fields(buf, image_laws::header_fields(args, layout), m)[i],
    decreases m,
{
    let fields = image_laws::header_fields(args, layout);
    if n < m {
        lemma_later_fields(buf, args, layout, n, m - 1, i);
        pe_writer::lemma_with_fields_len(buf, fields, m - 1);
        let _ = fields[m - 1];
    }
}

/// Fields that end further up leave a byte alone.
proof fn lemma_earlier_fields(buf: Seq<u8>, args: PeArgs, layout: LayoutView, n: int, i: int)
    requires
        0 <= n <= 34,
        0 <= i < buf.len(),
        forall|k: int|
            0 <= k < n ==> {
                let field = #[trigger] image_laws::header_fields(args, layout)[k];
                field.offset + field.width <= i
            },
    ensures
        pe_writer::with_fields(buf, image_laws::header_fields(args, layout), n)[i] == buf[i],
    decreases n,
{
    let fields = image_laws::header_fields(args, layout);
    if n > 0 {
        lemma_earlier_fields(buf, args, layout, n - 1, i);
        pe_writer::lemma_with_fields_len(buf, fields, n - 1);
        let last = fields[n - 1];
        bytes::le_bytes_len(last.value as int, last.width as nat);
    }
}

/// Section headers depend on the bytes at their places only, and later ones leave a byte alone.
proof fn lemma_section_headers_alike(
    a: Seq<u8>,
    b: Seq<u8>,
    sections: Seq<OutputView>,
    n: int,
    m: int,
    i: int,
)
    requires
        0 <= n <= m <= sections.len(),
        forall|k: int| 0 <= k < sections.len() ==> (#[trigger] sections[k]).name.len() == 8,
        0 <= i < a.len(),
        i < b.len(),
        a[i] == b[i],
        n < m ==> i < 328 + 40 * n,
    ensures
        pe_writer::with_section_headers(a, sections, n)[i] == pe_writer::with_section_headers(
            b,
            sections,
            m,
        )[i],
    decreases m,
{
    if n < m {
        lemma_section_headers_alike(a, b, sections, n, m - 1, i);
        image_laws::lemma_section_headers_frame(b, sections, m - 1);
    } else if n > 0 {
        lemma_section_headers_alike(a, b, sections, n - 1, n - 1, i);
        image_laws::lemma_section_headers_frame(a, sections, n - 1);
        image_laws::lemma_section_headers_frame(b, sections, n - 1);
    }
}

/// Where the headers cannot all be written, those that can are written as they are written to a
/// larger buffer, and the bytes behind them stay as they were.
pub proof fn headers_that_fit_are_written(
    buf: Seq<u8>,
    large: Seq<u8>,
    args: PeArgs,
    layout: LayoutView,
    i: int,
)
    requires
        forall|l: int|
            0 <= l < layout.sections.len() ==> (#[trigger] layout.sections[l]).name.len() == 8,
        pe_writer::headers_error(buf.len() as int, layout) is Some,
        buf.len() <= large.len(),
        0 <= i < buf.len(),
        large[i] == buf[i],
    ensures
        pe_writer::with_fitting_headers(buf, args, layout)[i] == (if i < whole_headers(
            buf.len() as int,
            pe_writer::totals_fit(layout.sections, layout.sections.len() as int),
        ) {
            pe_writer::with_headers(large, args, layout)[i]
        } else {
            buf[i]
        }),
{
    let have = buf.len() as int;
    let num = layout.sections.len() as int;
    let fit = pe_writer::totals_fit(layout.sections, num);
    let first = pe_writer::file_fields(args, layout);
    let second = pe_writer::optional_fields(args, layout);
    let fields = image_laws::header_fields(args, layout);
    image_laws::lemma_header_fields(args, layout);
    assert(forall|k: int| 0 <= k < 10 ==> #[trigger] fields[k] == first[k]);
    assert(forall|k: int| 10 <= k < 34 ==> #[trigger] fields[k] == second[k - 10]);
    assert(forall|k: int| 10 <= k < 34 ==> 88 <= (#[trigger] fields[k]).offset);
    let n = if have < 200 || !fit {
        pe_writer::fitting_fields(have)
    } else {
        34
    };
    if n <= 10 {
        pe_writer::lemma_with_fields_split(buf, first, second, n);
    }
    let ours = pe_writer::with_fields(buf, fields, n);
    let theirs = pe_writer::with_fields(large, fields, 34);
    pe_writer::lemma_with_fields_len(buf, fields, n);
    pe_writer::lemma_with_fields_len(large, fields, 34);
    lemma_fields_alike(buf, large, fields, n, i);
    let end = whole_headers(have, fit);
    let fixed = bytes::put(theirs, 200, pe_writer::zeros(128));
    if have < 328 || !fit {
        assert(pe_writer::with_fitting_headers(buf, args, layout) == ours);
        if i < end {
            assert forall|k: int| n <= k < 34 implies i < (#[trigger] fields[k]).offset by {}
            lemma_later_fields(large, args, layout, n, 34, i);
            image_laws::lemma_section_headers_frame(fixed, layout.sections, num);
        } else {
            assert forall|k: int| 0 <= k < n implies {
                let field = #[trigger] fields[k];
                field.offset + field.width <= i
            } by {}
            lemma_earlier_fields(buf, args, layout, n, i);
        }
    } else {
        let some = bytes::put(ours, 200, pe_writer::zeros(128));
        let m = (have - 328) / 40;
        assert(some[i] == fixed[i]);
        if i < end {
            lemma_section_headers_alike(some, fixed, layout.sections, m, num, i);
        } else {
            assert forall|k: int| 0 <= k < 34 implies {
                let field = #[trigger] fields[k];
                field.offset + field.width <= i
            } by {}
            lemma_earlier_fields(buf, args, layout, 34, i);
            image_laws::lemma_section_headers_frame(some, layout.sections, m);
        }
    }
}

// ---- contents ----

/// Whether the relocations in front of the `m`-th turn one buffer into the other, and this one fails.
pub open spec fn fails_at(
    start: Seq<u8>,
    after: Seq<u8>,
    layout: LayoutView,
    output: OutputView,
    part: SectionContribution,
    m: int,
    e: LinkError,
) -> bool {
    let relocations = placement_laws::origin(layout.objects, part).relocations;
    &&& 0 <= m < relocations.len()
    &&& pe_reloc::relocated(start, layout, output, part, relocations, m) == Ok::<
        Seq<u8>,
        LinkError,
    >(after)
    &&& pe_reloc::with_relocation(after, layout, output, part, relocations[m]) == Err::<
        Seq<u8>,
        LinkError,
    >(e)
}

/// A part of an output section that cannot be written leaves the buffer as it was where it has no
/// room in it. Else its data is there, and the relocations in front of the first that fails are
/// applied.
pub proof fn parts_that_fail_leave_what_was_written(
    buf: Seq<u8>,
    after: Seq<u8>,
    layout: LayoutView,
    output: OutputView,
    part: SectionContribution,
    e: LinkError,
)
    requires
        pe_writer::contribution_stops(buf, after, layout, output, part, e),
    ensures
        ({
            let data = placement_laws::origin(layout.objects, part).data;
            let copied = if data.len() <= part.size {
                data.len() as int
            } else {
                part.size as int
            };
            let at = output.file_offset + part.output_offset;
            &&& at > usize::MAX || at + copied > buf.len() ==> after == buf
            &&& at <= usize::MAX && at + copied <= buf.len() ==> exists|start: Seq<u8>, m: int|
                {
                    &&& #[trigger] fails_at(start, after, layout, output, part, m, e)
                    &&& start.len() == buf.len()
                    &&& forall|i: int|
                        0 <= i < buf.len() ==> #[trigger] start[i] == (if at <= i < at + copied {
                            data[i - at]
                        } else {
                            buf[i]
                        })
                }
        }),
{
    let data = pe_writer::contribution_data(layout, part);
    let at = pe_writer::contribution_at(output, part);
    let relocations = placement_laws::origin(layout.objects, part).relocations;
    if at <= usize::MAX && at + data.len() <= buf.len() {
        let start = bytes::put(buf, at, data);
        let m = choose|m: int| #[trigger]
            pe_reloc::stops_at(start, after, layout, output, part, relocations, m, e);
        assert(pe_reloc::stops_at(start, after, layout, output, part, relocations, m, e));
        assert(fails_at(start, after, layout, output, part, m, e));
    }
}

/// Where the contents cannot be written, all parts in front of the first that fails are there, and
/// sections that only take up memory are passed over.
pub proof fn contents_fail_at_the_first_part(
    buf: Seq<u8>,
    after: Seq<u8>,
    layout: LayoutView,
    k: int,
    c: int,
    e: LinkError,
)
    requires
        pe_writer::contents_stop_at(buf, after, layout, k, c, e),
    ensures
        0 <= k < layout.sections.len(),
        !layout.sections[k].is_bss,
        0 <= c < layout.sections[k].contributions.len(),
        pe_writer::with_contents(buf, layout, k, c) is Ok,
        pe_writer::contribution_stops(
            pe_writer::with_contents(buf, layout, k, c)->Ok_0,
            after,
            layout,
            layout.sections[k],
            layout.sections[k].contributions[c],
            e,
        ),
{
}

// ---- symbols ----

/// Whether symbol `b` of object `a` stands in front of symbol `s` of object `i`.
pub open spec fn is_in_front(a: int, b: int, i: int, s: int) -> bool {
    a < i || a == i && b < s
}

/// Whether symbol `s` of object `i` is the first that has no place, for this reason, and only the
/// symbols in front of it have been given their addresses.
pub open spec fn stops_at_symbol(
    layout: LayoutView,
    after: LayoutView,
    i: int,
    s: int,
    e: LinkError,
) -> bool {
    &&& 0 <= i < layout.objects.len()
    &&& 0 <= s < layout.objects[i].symbols.len()
    &&& pe_symbols::own_address(layout, i, s) == Err::<Option<u64>, LinkError>(e)
    &&& forall|a: int, b: int|
        0 <= a < layout.objects.len() && 0 <= b < layout.objects[a].symbols.len() ==> {
            let address = #[trigger] after.symbol_addresses[a][b];
            if is_in_front(a, b, i, s) {
                match pe_symbols::own_address(layout, a, b) {
                    Ok(Some(own)) => address == Some(own),
                    Ok(None) => address == layout.symbol_addresses[a][b],
                    Err(_) => false,
                }
            } else {
                address == layout.symbol_addresses[a][b]
            }
        }
}

/// Whether symbol `s` of object `i` defines a name that a symbol in front of it has defined: the
/// error names both, and the name leads to the second.
pub open spec fn stops_at_name(
    layout: LayoutView,
    after: LayoutView,
    i: int,
    s: int,
    e: LinkError,
) -> bool {
    let found = pe_symbols::definitions(layout.objects, layout.global_definitions, i, s);
    let name = layout.objects[i].symbols[s].name->0;
    &&& 0 <= i < layout.objects.len()
    &&& 0 <= s < layout.objects[i].symbols.len()
    &&& pe_symbols::defines(layout.objects, i, s)
    &&& found is Ok
    &&& found->Ok_0.contains_key(name)
    &&& e == (LinkError::DuplicateSymbol {
        previous_object: found->Ok_0[name].0,
        object: i as usize,
        symbol: s as usize,
    })
    &&& after.global_definitions.contains_key(name)
    &&& after.global_definitions[name] == (i as usize, s as usize)
    &&& forall|other: Seq<char>|
        other != name ==> (#[trigger] after.global_definitions.contains_key(other)
            <==> found->Ok_0.contains_key(other)) && (found->Ok_0.contains_key(other)
            ==> after.global_definitions[other] == found->Ok_0[other])
}

/// No symbol in front has an error.
proof fn lemma_no_error_in_front(layout: LayoutView, i: int, s: int, a: int, b: int)
    requires
        0 <= i < layout.objects.len(),
        0 <= s <= layout.objects[i].symbols.len(),
        0 <= a,
        0 <= b < layout.objects[a].symbols.len(),
        is_in_front(a, b, i, s),
        pe_symbols::own_address_error(layout, i, s) is None,
    ensures
        pe_symbols::own_address(layout, a, b) is Ok,
    decreases i, s,
{
    if s > 0 {
        if a < i || b < s - 1 {
            lemma_no_error_in_front(layout, i, s - 1, a, b);
        }
    } else {
        lemma_no_error_in_front(layout, i - 1, layout.objects[i - 1].symbols.len() as int, a, b);
    }
}

/// Where symbols cannot be resolved, the layout keeps all that it held but definitions and
/// addresses. If a name is defined twice no address has been found; else all names are defined, and
/// the addresses are found in front of the first symbol that has no place.
pub proof fn symbols_that_fail_leave_what_was_found(
    layout: LayoutView,
    after: LayoutView,
    e: LinkError,
)
    requires
        pe_symbols::resolving_stops(layout, after, e),
    ensures
        after.image_base == layout.image_base,
        after.machine == layout.machine,
        after.sections == layout.sections,
        after.objects == layout.objects,
        after.entry_point_rva == layout.entry_point_rva,
        after.size_of_headers == layout.size_of_headers,
        after.size_of_image == layout.size_of_image,
        after.file_size == layout.file_size,
        match pe_symbols::definitions(
            layout.objects,
            layout.global_definitions,
            layout.objects.len() as int,
            0,
        ) {
            Err(_) => {
                &&& after.symbol_addresses == layout.symbol_addresses
                &&& exists|i: int, s: int| #[trigger] stops_at_name(layout, after, i, s, e)
            },
            Ok(found) => {
                &&& after.global_definitions == found
                &&& exists|i: int, s: int| #[trigger] stops_at_symbol(layout, after, i, s, e)
            },
        },
{
    let all = pe_symbols::definitions(
        layout.objects,
        layout.global_definitions,
        layout.objects.len() as int,
        0,
    );
    if all is Err {
        let (i, s) = choose|i: int, s: int| #[trigger]
            pe_symbols::duplicates_at(
                layout.objects,
                layout.global_definitions,
                after.global_definitions,
                i,
                s,
                e,
            );
        assert(stops_at_name(layout, after, i, s, e));
    } else {
        let (i, s) = choose|i: int, s: int| #[trigger]
            pe_symbols::address_fails_at(layout, i, s, e) && after.symbol_addresses
                == pe_symbols::addresses_before(layout, i, s);
        assert forall|a: int, b: int|
            0 <= a < layout.objects.len() && 0 <= b < layout.objects[a].symbols.len() implies {
            let address = #[trigger] after.symbol_addresses[a][b];
            if is_in_front(a, b, i, s) {
                match pe_symbols::own_address(layout, a, b) {
                    Ok(Some(own)) => address == Some(own),
                    Ok(None) => address == layout.symbol_addresses[a][b],
                    Err(_) => false,
                }
            } else {
                address == layout.symbol_addresses[a][b]
            }
        } by {
            if is_in_front(a, b, i, s) {
                lemma_no_error_in_front(layout, i, s, a, b);
            }
        }
        assert(stops_at_symbol(layout, after, i, s, e));
    }
}

// ---- archives ----

/// Whether a name leads to a member of the `a`-th archive that cannot be loaded, for this reason.
pub open spec fn is_unusable(
    archives: Seq<ArchiveView>,
    a: int,
    name: Seq<char>,
    e: LoadErrorView,
) -> bool {
    &&& 0 <= a < archives.len()
    &&& archives[a].members.contains_key(name)
    &&& pe_archive::member_object(archives[a], archives[a].members[name]) == Err::<
        ObjectView,
        LoadErrorView,
    >(e)
}

/// A name that is supplied is supplied by a member.
proof fn lemma_supplier(
    archives: Seq<ArchiveView>,
    loaded: Seq<Set<u64>>,
    name: Seq<char>,
    a: int,
)
    ensures
        pe_archive::supplier(archives, loaded, name, a) matches Some(b) ==> 0 <= b < archives.len()
            && archives[b].members.contains_key(name),
    decreases archives.len() - a,
{
    if 0 <= a < archives.len() {
        lemma_supplier(archives, loaded, name, a + 1);
    }
}

/// Loading stops only at a member that a name leads to and that cannot be loaded.
pub proof fn loading_stops_at_members_of_no_use(
    archives: Seq<ArchiveView>,
    objects: Seq<ObjectView>,
    all: Seq<ObjectView>,
    e: LoadErrorView,
)
    requires
        pe_archive::loading_stops(archives, objects, all, e),
    ensures
        exists|a: int, name: Seq<char>| #[trigger] is_unusable(archives, a, name, e),
{
    let (passes, n) = choose|passes: nat, n: int| #[trigger]
        pe_archive::stops_in_pass(archives, objects, passes, n, all, e);
    let start = pe_archive::start_state(objects, archives);
    let before = pe_archive::after_passes(archives, start, passes)->Ok_0;
    let names = pe_archive::unresolved_names(before.objects);
    let state = pe_archive::with_members(archives, before, names, n)->Ok_0;
    lemma_supplier(archives, state.loaded, names[n], 0);
    let a = pe_archive::supplier(archives, state.loaded, names[n], 0)->0;
    assert(is_unusable(archives, a, names[n], e));
}

} // verus!
