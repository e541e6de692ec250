//! What the headers of every image say.
use crate::args::{PeArgs, WindowsSubsystem};
use crate::bytes;
use crate::error::LinkError;
use crate::image_laws;
use crate::input::ObjectView;
use crate::link_laws;
use crate::pe_layout::LayoutView;
use crate::pe_link;
use crate::pe_section::OutputView;
use crate::pe_writer;
use vstd::prelude::*;

verus! {

// ---- what the headers say ----

/// The sum of numbers.
pub open spec fn sum(values: Seq<int>) -> int
    decreases values.len(),
{
    if values.len() == 0 {
        0
    } else {
        sum(values.drop_last()) + values.last()
    }
}

/// The sum of the sizes in the file of the sections that have the flag.
pub open spec fn sum_in_file(sections: Seq<OutputView>, flag: u32) -> int {
    sum(
        sections.filter(|section: OutputView| section.characteristics & flag != 0).map_values(
            |section: OutputView| section.raw_data_size as int,
        ),
    )
}

/// The sum of the sizes in memory of the sections that have the flag.
pub open spec fn sum_in_memory(sections: Seq<OutputView>, flag: u32) -> int {
    sum(
        sections.filter(|section: OutputView| section.characteristics & flag != 0).map_values(
            |section: OutputView| section.virtual_size as int,
        ),
    )
}

/// The number, if it was asked for.
pub open spec fn if_asked(asked: bool, number: int) -> int {
    if asked {
        number
    } else {
        0
    }
}

/// Whether the file begins with the DOS header, the signature and the COFF header of an image.
///
/// The characteristics always say that the file can be executed. They say that it can handle large
/// addresses exactly if that was asked for, that it is a library exactly if that was asked for, and
/// nothing else.
pub open spec fn begins_as_image(file: Seq<u8>, args: PeArgs, layout: LayoutView) -> bool {
    &&& bytes::read(file, 0, 2) == 0x5A4D
    &&& bytes::read(file, 60, 4) == 64
    &&& bytes::read(file, 64, 4) == 0x4550
    &&& bytes::read(file, 68, 2) == layout.machine
    &&& bytes::read(file, 70, 2) == layout.sections.len() % 0x1_0000
    &&& bytes::read(file, 72, 4) == 0
    &&& bytes::read(file, 76, 4) == 0
    &&& bytes::read(file, 80, 4) == 0
    &&& bytes::read(file, 84, 2) == 240
    &&& bytes::read(file, 86, 2) == 0x0002 + if_asked(args.large_address_aware, 0x0020) + if_asked(
        args.is_dll,
        0x2000,
    )
}

/// Whether the optional header says where things are: the magic number of a 64-bit image, the
/// sums over the sections, the entry point, the image base, the alignments and the sizes.
pub open spec fn says_where_things_are(file: Seq<u8>, layout: LayoutView) -> bool {
    &&& bytes::read(file, 88, 2) == 0x20B
    &&& bytes::read(file, 90, 1) == 1
    &&& bytes::read(file, 91, 1) == 0
    &&& bytes::read(file, 92, 4) == sum_in_file(layout.sections, 0x20)
    &&& bytes::read(file, 96, 4) == sum_in_file(layout.sections, 0x40)
    &&& bytes::read(file, 100, 4) == sum_in_memory(layout.sections, 0x80)
    &&& bytes::read(file, 104, 4) == layout.entry_point_rva
    &&& is_base_of_code(layout.sections, bytes::read(file, 108, 4))
    &&& bytes::read(file, 112, 8) == layout.image_base
    &&& bytes::read(file, 120, 4) == 0x1000
    &&& bytes::read(file, 124, 4) == 0x200
    &&& bytes::read(file, 128, 2) == 6
    &&& bytes::read(file, 130, 2) == 0
    &&& bytes::read(file, 136, 2) == 6
    &&& bytes::read(file, 138, 2) == 0
    &&& bytes::read(file, 144, 4) == layout.size_of_image
    &&& bytes::read(file, 148, 4) == layout.size_of_headers
}

/// Whether this is the address of the first section with code, or zero where there is none. A
/// section at address zero does not count.
pub open spec fn is_base_of_code(sections: Seq<OutputView>, base: int) -> bool {
    if exists|k: int| 0 <= k < sections.len() && #[trigger] is_code(sections[k]) {
        exists|k: int|
            {
                &&& 0 <= k < sections.len()
                &&& #[trigger] is_code(sections[k])
                &&& base == sections[k].virtual_address
                &&& forall|l: int| 0 <= l < k ==> !is_code(#[trigger] sections[l])
            }
    } else {
        base == 0
    }
}

/// Whether a section holds code and has an address.
pub open spec fn is_code(section: OutputView) -> bool {
    section.characteristics & 0x20 != 0 && section.virtual_address != 0
}

/// The number of a subsystem; programs run on the console unless something else is asked for.
pub open spec fn number_of(subsystem: Option<WindowsSubsystem>) -> int {
    match subsystem {
        None => 3,
        Some(WindowsSubsystem::Console) => 3,
        Some(WindowsSubsystem::Windows) => 2,
        Some(WindowsSubsystem::Native) => 1,
        Some(WindowsSubsystem::Posix) => 7,
        Some(WindowsSubsystem::BootApplication) => 16,
        Some(WindowsSubsystem::EfiApplication) => 10,
        Some(WindowsSubsystem::EfiBootServiceDriver) => 11,
        Some(WindowsSubsystem::EfiRom) => 13,
        Some(WindowsSubsystem::EfiRuntimeDriver) => 12,
    }
}

/// Whether the optional header says what was asked for: the subsystem, the flags, each
/// independently of the others, and the sizes of stack and heap. There are sixteen data
/// directories, all empty.
pub open spec fn says_what_was_asked_for(file: Seq<u8>, args: PeArgs) -> bool {
    &&& bytes::read(file, 156, 2) == number_of(args.subsystem)
    &&& bytes::read(file, 158, 2) == if_asked(args.high_entropy_va, 0x0020) + if_asked(
        args.dynamic_base,
        0x0040,
    ) + if_asked(args.nx_compat, 0x0100) + if_asked(args.terminal_server_aware, 0x8000)
    &&& bytes::read(file, 160, 8) == (match args.stack_size {
        Some(size) => size as int,
        None => 0x10_0000,
    })
    &&& bytes::read(file, 168, 8) == 0x1000
    &&& bytes::read(file, 176, 8) == (match args.heap_size {
        Some(size) => size as int,
        None => 0x10_0000,
    })
    &&& bytes::read(file, 184, 8) == 0x1000
    &&& bytes::read(file, 196, 4) == 16
    &&& forall|i: int| 200 <= i < 328 ==> #[trigger] file[i] == 0
}

/// Whether the header of the `k`-th section says what the layout says of it: its name, its sizes
/// and places in memory and in the file, and its flags. A section that only takes up memory has no
/// size in the file.
pub open spec fn describes_section(file: Seq<u8>, layout: LayoutView, k: int) -> bool {
    let at = 328 + 40 * k;
    let section = layout.sections[k];
    &&& forall|i: int| 0 <= i < 8 ==> #[trigger] file[at + i] == section.name[i]
    &&& bytes::read(file, at + 8, 4) == section.virtual_size
    &&& bytes::read(file, at + 12, 4) == section.virtual_address
    &&& bytes::read(file, at + 16, 4) == (if section.is_bss {
        0
    } else {
        section.raw_data_size as int
    })
    &&& bytes::read(file, at + 20, 4) == section.file_offset
    &&& bytes::read(file, at + 24, 4) == 0
    &&& bytes::read(file, at + 28, 4) == 0
    &&& bytes::read(file, at + 32, 2) == 0
    &&& bytes::read(file, at + 34, 2) == 0
    &&& bytes::read(file, at + 36, 4) == section.characteristics
}

/// Whether the file begins with the headers that the options and the layout ask for.
pub open spec fn has_headers(file: Seq<u8>, args: PeArgs, layout: LayoutView) -> bool {
    &&& begins_as_image(file, args, layout)
    &&& says_where_things_are(file, layout)
    &&& says_what_was_asked_for(file, args)
    &&& forall|k: int|
        0 <= k < layout.sections.len() ==> #[trigger] describes_section(file, layout, k)
}

/// Whether a byte in front of the data directories lies in no field of the headers.
pub open spec fn is_between_fields(i: int) -> bool {
    ||| 2 <= i < 60
    ||| 132 <= i < 136
    ||| 140 <= i < 144
    ||| 152 <= i < 156
    ||| 192 <= i < 196
}

// ---- sums and flags ----

/// One more number.
proof fn lemma_sum_push(values: Seq<int>, value: int)
    ensures
        sum(values.push(value)) == sum(values) + value,
{
    assert(values.push(value).drop_last() =~= values);
}

/// The sums over sections.
proof fn lemma_sums(sections: Seq<OutputView>, flag: u32, n: int)
    requires
        0 <= n <= sections.len(),
    ensures
        pe_writer::raw_total(sections, flag, n) == sum_in_file(sections.take(n), flag),
        pe_writer::memory_total(sections, flag, n) == sum_in_memory(sections.take(n), flag),
    decreases n,
{
    reveal(Seq::filter);
    let has_flag = |section: OutputView| section.characteristics & flag != 0;
    let raw = |section: OutputView| section.raw_data_size as int;
    let memory = |section: OutputView| section.virtual_size as int;
    let all = sections.take(n);
    if n > 0 {
        lemma_sums(sections, flag, n - 1);
        let before = sections.take(n - 1).filter(has_flag);
        let last = sections[n - 1];
        assert(all.drop_last() =~= sections.take(n - 1));
        assert(all.last() == last);
        if has_flag(last) {
            assert(all.filter(has_flag) =~= before.push(last));
            assert(before.push(last).map_values(raw) =~= before.map_values(raw).push(raw(last)));
            assert(before.push(last).map_values(memory) =~= before.map_values(memory).push(
                memory(last),
            ));
            lemma_sum_push(before.map_values(raw), raw(last));
            lemma_sum_push(before.map_values(memory), memory(last));
        } else {
            assert(all.filter(has_flag) =~= before);
        }
    } else {
        assert(all.filter(has_flag) =~= Seq::<OutputView>::empty());
    }
}

/// The address of the first section with code.
proof fn lemma_base_of_code(sections: Seq<OutputView>, n: int)
    requires
        0 <= n <= sections.len(),
    ensures
        ({
            let base = pe_writer::first_code(sections, n);
            if base == 0 {
                forall|l: int| 0 <= l < n ==> !is_code(#[trigger] sections[l])
            } else {
                exists|k: int|
                    {
                        &&& 0 <= k < n
                        &&& #[trigger] is_code(sections[k])
                        &&& base == sections[k].virtual_address
                        &&& forall|l: int| 0 <= l < k ==> !is_code(#[trigger] sections[l])
                    }
            }
        }),
    decreases n,
{
    if n > 0 {
        lemma_base_of_code(sections, n - 1);
        if pe_writer::first_code(sections, n - 1) == 0 && pe_writer::first_code(sections, n) != 0 {
            assert(is_code(sections[n - 1]));
        }
    }
}

/// Flags that have no bit in common can be added.
proof fn lemma_flags(args: PeArgs)
    ensures
        pe_writer::file_flags(args) == 0x0002 + if_asked(args.large_address_aware, 0x0020)
            + if_asked(args.is_dll, 0x2000),
        pe_writer::dll_flags(args) == if_asked(args.high_entropy_va, 0x0020) + if_asked(
            args.dynamic_base,
            0x0040,
        ) + if_asked(args.nx_compat, 0x0100) + if_asked(args.terminal_server_aware, 0x8000),
{
    let a: u16 = if args.large_address_aware {
        0x20
    } else {
        0
    };
    let b: u16 = if args.is_dll {
        0x2000
    } else {
        0
    };
    assert(2u16 | a | b == 2 + a + b) by (bit_vector)
        requires
            a == 0x20 || a == 0,
            b == 0x2000 || b == 0,
    ;
    let c: u16 = if args.high_entropy_va {
        0x20
    } else {
        0
    };
    let d: u16 = if args.dynamic_base {
        0x40
    } else {
        0
    };
    let e: u16 = if args.nx_compat {
        0x100
    } else {
        0
    };
    let f: u16 = if args.terminal_server_aware {
        0x8000
    } else {
        0
    };
    assert(c | d | e | f == c + d + e + f) by (bit_vector)
        requires
            c == 0x20 || c == 0,
            d == 0x40 || d == 0,
            e == 0x100 || e == 0,
            f == 0x8000 || f == 0,
    ;
}

// ---- written headers ----

/// The fields in front of the data directories.
proof fn lemma_fields(buf: Seq<u8>, args: PeArgs, layout: LayoutView)
    requires
        pe_writer::headers_error(buf.len() as int, layout) is None,
        forall|l: int|
            0 <= l < layout.sections.len() ==> (#[trigger] layout.sections[l]).name.len() == 8,
    ensures
        begins_as_image(pe_writer::with_headers(buf, args, layout), args, layout),
{
    image_laws::header_fields_read_back(buf, args, layout, 0);
    image_laws::header_fields_read_back(buf, args, layout, 1);
    image_laws::header_fields_read_back(buf, args, layout, 2);
    image_laws::header_fields_read_back(buf, args, layout, 3);
    image_laws::header_fields_read_back(buf, args, layout, 4);
    image_laws::header_fields_read_back(buf, args, layout, 5);
    image_laws::header_fields_read_back(buf, args, layout, 6);
    image_laws::header_fields_read_back(buf, args, layout, 7);
    image_laws::header_fields_read_back(buf, args, layout, 8);
    image_laws::header_fields_read_back(buf, args, layout, 9);
    lemma_flags(args);
}

/// The places and sizes in the optional header.
proof fn lemma_places(buf: Seq<u8>, args: PeArgs, layout: LayoutView)
    requires
        pe_writer::headers_error(buf.len() as int, layout) is None,
        forall|l: int|
            0 <= l < layout.sections.len() ==> (#[trigger] layout.sections[l]).name.len() == 8,
    ensures
        says_where_things_are(pe_writer::with_headers(buf, args, layout), layout),
{
    let n = layout.sections.len() as int;
    image_laws::header_fields_read_back(buf, args, layout, 10);
    image_laws::header_fields_read_back(buf, args, layout, 11);
    image_laws::header_fields_read_back(buf, args, layout, 12);
    image_laws::header_fields_read_back(buf, args, layout, 13);
    image_laws::header_fields_read_back(buf, args, layout, 14);
    image_laws::header_fields_read_back(buf, args, layout, 15);
    image_laws::header_fields_read_back(buf, args, layout, 16);
    image_laws::header_fields_read_back(buf, args, layout, 17);
    image_laws::header_fields_read_back(buf, args, layout, 18);
    image_laws::header_fields_read_back(buf, args, layout, 19);
    image_laws::header_fields_read_back(buf, args, layout, 20);
    image_laws::header_fields_read_back(buf, args, layout, 21);
    image_laws::header_fields_read_back(buf, args, layout, 22);
    image_laws::header_fields_read_back(buf, args, layout, 23);
    image_laws::header_fields_read_back(buf, args, layout, 24);
    image_laws::header_fields_read_back(buf, args, layout, 25);
    image_laws::header_fields_read_back(buf, args, layout, 26);
    lemma_sums(layout.sections, 0x20, n);
    lemma_sums(layout.sections, 0x40, n);
    lemma_sums(layout.sections, 0x80, n);
    assert(layout.sections.take(n) =~= layout.sections);
    lemma_base_of_code(layout.sections, n);
}

/// The options in the optional header.
proof fn lemma_options(buf: Seq<u8>, args: PeArgs, layout: LayoutView)
    requires
        pe_writer::headers_error(buf.len() as int, layout) is None,
        forall|l: int|
            0 <= l < layout.sections.len() ==> (#[trigger] layout.sections[l]).name.len() == 8,
    ensures
        says_what_was_asked_for(pe_writer::with_headers(buf, args, layout), args),
{
    let file = pe_writer::with_headers(buf, args, layout);
    image_laws::header_fields_read_back(buf, args, layout, 27);
    image_laws::header_fields_read_back(buf, args, layout, 28);
    image_laws::header_fields_read_back(buf, args, layout, 29);
    image_laws::header_fields_read_back(buf, args, layout, 30);
    image_laws::header_fields_read_back(buf, args, layout, 31);
    image_laws::header_fields_read_back(buf, args, layout, 32);
    image_laws::header_fields_read_back(buf, args, layout, 33);
    lemma_flags(args);
    image_laws::lemma_with_headers_len(buf, args, layout);
    image_laws::lemma_empty_directories(buf, args, layout);
    assert forall|i: int| 200 <= i < 328 implies #[trigger] file[i] == 0 by {
        assert(file.subrange(200, 328)[i - 200] == 0);
    }
}

/// The fields of a section header.
proof fn lemma_section_header(file: Seq<u8>, at: int, section: OutputView)
    requires
        section.name.len() == 8,
        0 <= at,
        at + 40 <= file.len(),
        file.subrange(at, at + 40) == pe_writer::section_header(section),
    ensures
        forall|i: int| 0 <= i < 8 ==> #[trigger] file[at + i] == section.name[i],
        bytes::read(file, at + 8, 4) == section.virtual_size,
        bytes::read(file, at + 12, 4) == section.virtual_address,
        bytes::read(file, at + 16, 4) == (if section.is_bss {
            0
        } else {
            section.raw_data_size as int
        }),
        bytes::read(file, at + 20, 4) == section.file_offset,
        bytes::read(file, at + 24, 4) == 0,
        bytes::read(file, at + 28, 4) == 0,
        bytes::read(file, at + 32, 2) == 0,
        bytes::read(file, at + 34, 2) == 0,
        bytes::read(file, at + 36, 4) == section.characteristics,
{
    broadcast use bytes::le_bytes_len;

    image_laws::lemma_pow256();
    let header = pe_writer::section_header(section);
    assert forall|i: int| 0 <= i < 8 implies #[trigger] file[at + i] == section.name[i] by {
        assert(file.subrange(at, at + 40)[i] == section.name[i]);
    }
    let size = if section.is_bss {
        0
    } else {
        section.raw_data_size as int
    };
    lemma_part(file, at, header, 8, section.virtual_size as int, 4);
    lemma_part(file, at, header, 12, section.virtual_address as int, 4);
    lemma_part(file, at, header, 16, size, 4);
    lemma_part(file, at, header, 20, section.file_offset as int, 4);
    lemma_part(file, at, header, 24, 0, 4);
    lemma_part(file, at, header, 28, 0, 4);
    lemma_part(file, at, header, 32, 0, 2);
    lemma_part(file, at, header, 34, 0, 2);
    lemma_part(file, at, header, 36, section.characteristics as int, 4);
}

/// A number inside of bytes that stand in the file.
proof fn lemma_part(
    file: Seq<u8>,
    at: int,
    header: Seq<u8>,
    offset: int,
    value: int,
    width: nat,
)
    requires
        0 <= at,
        0 <= offset,
        header.len() == 40,
        offset + width <= 40,
        at + 40 <= file.len(),
        file.subrange(at, at + 40) == header,
        width == 2 || width == 4,
        0 <= value < vstd::arithmetic::power::pow(256, width),
        header.subrange(offset, offset + width) =~= bytes::le_bytes(value, width),
    ensures
        bytes::read(file, at + offset, width as int) == value,
{
    bytes::le_bytes_value(value, width);
    vstd::arithmetic::div_mod::lemma_small_mod(
        value as nat,
        vstd::arithmetic::power::pow(256, width) as nat,
    );
    assert(file.subrange(at + offset, at + offset + width) =~= header.subrange(
        offset,
        offset + width,
    ));
}

/// The headers that are written say what the options and the layout ask for.
pub proof fn written_headers_say_what_was_asked_for(
    buf: Seq<u8>,
    args: PeArgs,
    layout: LayoutView,
)
    requires
        pe_writer::headers_error(buf.len() as int, layout) is None,
        forall|l: int|
            0 <= l < layout.sections.len() ==> (#[trigger] layout.sections[l]).name.len() == 8,
    ensures
        has_headers(pe_writer::with_headers(buf, args, layout), args, layout),
        pe_writer::with_headers(buf, args, layout).len() == buf.len(),
{
    let file = pe_writer::with_headers(buf, args, layout);
    lemma_fields(buf, args, layout);
    lemma_places(buf, args, layout);
    lemma_options(buf, args, layout);
    image_laws::lemma_with_headers_len(buf, args, layout);
    assert forall|k: int| 0 <= k < layout.sections.len() implies #[trigger] describes_section(
        file,
        layout,
        k,
    ) by {
        image_laws::section_headers_read_back(buf, args, layout, k);
        image_laws::lemma_pow256();
        lemma_section_header(file, 328 + 40 * k, layout.sections[k]);
    }
}

/// Whether a byte lies in a field of the headers.
proof fn lemma_between_fields(buf: Seq<u8>, args: PeArgs, layout: LayoutView, n: int, i: int)
    requires
        0 <= n <= 34,
        200 <= buf.len(),
        is_between_fields(i),
    ensures
        pe_writer::with_fields(buf, image_laws::header_fields(args, layout), n)[i] == buf[i],
        pe_writer::with_fields(buf, image_laws::header_fields(args, layout), n).len() == buf.len(),
    decreases n,
{
    broadcast use bytes::le_bytes_len;

    if n > 0 {
        lemma_between_fields(buf, args, layout, n - 1, i);
        let _ = image_laws::header_fields(args, layout)[n - 1];
    }
}

/// The headers leave the bytes between their fields alone, and those behind them.
pub proof fn headers_are_no_more_than_their_fields(
    buf: Seq<u8>,
    args: PeArgs,
    layout: LayoutView,
    i: int,
)
    requires
        pe_writer::headers_error(buf.len() as int, layout) is None,
        forall|l: int|
            0 <= l < layout.sections.len() ==> (#[trigger] layout.sections[l]).name.len() == 8,
        0 <= i < buf.len(),
        is_between_fields(i) || 328 + 40 * layout.sections.len() <= i,
    ensures
        pe_writer::with_headers(buf, args, layout)[i] == buf[i],
{
    if is_between_fields(i) {
        lemma_between_fields(buf, args, layout, 34, i);
        let fields = image_laws::header_fields(args, layout);
        assert(fields.len() == 34);
        let fixed = bytes::put(pe_writer::with_fields(buf, fields, 34), 200, pe_writer::zeros(128));
        image_laws::lemma_section_headers_frame(
            fixed,
            layout.sections,
            layout.sections.len() as int,
        );
    } else {
        image_laws::headers_leave_the_rest_alone(buf, args, layout, i);
    }
}

/// The headers can be written exactly if there is room for all of them and the sums over the
/// sections fit in 32 bits. Where there is no room, the error says how long the file is, and that
/// it would have to be longer.
pub proof fn headers_need_room(have: int, layout: LayoutView)
    requires
        0 <= have <= usize::MAX,
    ensures
        ({
            let fits = sum_in_file(layout.sections, 0x20) <= u32::MAX && sum_in_file(
                layout.sections,
                0x40,
            ) <= u32::MAX && sum_in_memory(layout.sections, 0x80) <= u32::MAX;
            let error = pe_writer::headers_error(have, layout);
            &&& error is None <==> 328 + 40 * layout.sections.len() <= have && fits
            &&& match error {
                None => true,
                Some(LinkError::HeaderOutOfBounds { need, have: found }) => {
                    &&& found == have
                    &&& have < need <= 328 + 40 * layout.sections.len()
                },
                Some(LinkError::ArithmeticOverflow) => !fits || 328 + 40 * layout.sections.len()
                    > usize::MAX,
                Some(_) => false,
            }
        }),
{
    let n = layout.sections.len() as int;
    lemma_sums(layout.sections, 0x20, n);
    lemma_sums(layout.sections, 0x40, n);
    lemma_sums(layout.sections, 0x80, n);
    assert(layout.sections.take(n) =~= layout.sections);
}

// ---- headers of images ----

/// Fields hold the same numbers where the bytes are the same.
proof fn lemma_same_fields(a: Seq<u8>, b: Seq<u8>, end: int)
    requires
        0 <= end <= a.len(),
        end <= b.len(),
        forall|i: int| 0 <= i < end ==> #[trigger] a[i] == b[i],
    ensures
        forall|at: int, width: int|
            0 <= at && 0 <= width && at + width <= end ==> #[trigger] bytes::read(a, at, width)
                == bytes::read(b, at, width),
{
    assert forall|at: int, width: int|
        0 <= at && 0 <= width && at + width <= end implies #[trigger] bytes::read(a, at, width)
        == bytes::read(b, at, width) by {
        assert(a.subrange(at, at + width) =~= b.subrange(at, at + width));
    }
}

/// Headers are the same where the bytes are the same.
proof fn lemma_same_headers(a: Seq<u8>, b: Seq<u8>, args: PeArgs, layout: LayoutView)
    requires
        328 + 40 * layout.sections.len() <= a.len(),
        328 + 40 * layout.sections.len() <= b.len(),
        forall|i: int| 0 <= i < 328 + 40 * layout.sections.len() ==> #[trigger] a[i] == b[i],
        has_headers(b, args, layout),
    ensures
        has_headers(a, args, layout),
{
    let end = 328 + 40 * layout.sections.len();
    lemma_same_fields(a, b, end as int);
    assert forall|k: int| 0 <= k < layout.sections.len() implies #[trigger] describes_section(
        a,
        layout,
        k,
    ) by {
        assert(describes_section(b, layout, k));
        let at = 328 + 40 * k;
        assert forall|i: int| 0 <= i < 8 implies #[trigger] a[at + i] == layout.sections[k].name[i] by {
            assert(b[at + i] == layout.sections[k].name[i]);
        }
    }
}

/// The headers of an image say what the options and the finished layout ask for, and the machine is
/// the x86-64. The bytes between the fields are zero.
pub proof fn images_have_headers(
    args: PeArgs,
    objects: Seq<ObjectView>,
    layout: LayoutView,
    result: LayoutView,
)
    requires
        link_laws::is_finished_layout_of(result, layout, args, objects),
        pe_link::linked(args, objects) is Ok,
    ensures
        has_headers(pe_link::linked(args, objects)->Ok_0, args, result),
        pe_link::linked(args, objects)->Ok_0.len() == result.file_size,
        bytes::read(pe_link::linked(args, objects)->Ok_0, 68, 2) == 0x8664,
        bytes::read(pe_link::linked(args, objects)->Ok_0, 112, 8) == (match args.base_address {
            Some(base) => base as int,
            None => 0x1_4000_0000,
        }),
        forall|i: int|
            is_between_fields(i) ==> #[trigger] pe_link::linked(args, objects)->Ok_0[i] == 0,
{
    let file = pe_link::linked(args, objects)->Ok_0;
    let empty = pe_writer::zeros(result.file_size as nat);
    let written = pe_writer::with_headers(empty, args, result);
    link_laws::finished_layouts_fit(args, objects, layout, result);
    written_headers_say_what_was_asked_for(empty, args, result);
    link_laws::linked_images_begin_with_headers(args, objects, layout, result, 0);
    assert forall|i: int| 0 <= i < 328 + 40 * result.sections.len() implies #[trigger] file[i]
        == written[i] by {
        link_laws::linked_images_begin_with_headers(args, objects, layout, result, i);
    }
    lemma_same_headers(file, written, args, result);
    assert forall|i: int| is_between_fields(i) implies #[trigger] file[i] == 0 by {
        assert(file[i] == written[i]);
        headers_are_no_more_than_their_fields(empty, args, result, i);
    }
}

} // verus!
