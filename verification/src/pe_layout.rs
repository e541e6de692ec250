//! Section layout of a PE image.
use crate::align;
use crate::align::align_up;
use crate::args::PeArgs;
use crate::error::LinkError;
use crate::input;
use crate::input::{InputObject, ObjectView, SectionView};
use crate::pe;
use crate::pe_grouping;
use crate::pe_grouping::{place_section, remap_output_section_indices, sort_sections};
use crate::pe_section;
use crate::pe_section::{should_discard_section, OutputSection, OutputView};
use crate::pe_writer;
use crate::pe_writer::checked_headers_size;
use vstd::arithmetic::power2;
use vstd::hash_map::StringHashMap;
use vstd::prelude::*;

verus! {

/// Image base that is used where none is asked for.
pub const IMAGE_BASE_X64: u64 = 0x0000_0001_4000_0000;

/// Alignment of the sections of a loaded image.
pub const SECTION_ALIGNMENT: u32 = 0x1000;

/// Alignment of the sections in the file.
pub const FILE_ALIGNMENT: u32 = 0x200;

/// An image before it is written: its sections, and the objects that they are made of.
pub struct PeLayout {
    pub image_base: u64,
    pub machine: u16,
    pub sections: Vec<OutputSection>,
    pub objects: Vec<InputObject>,
    /// The address of each symbol of each object, as far as it has one of its own.
    pub symbol_addresses: Vec<Vec<Option<u64>>>,
    /// The object and the symbol that define an external name.
    pub global_definitions: StringHashMap<(usize, usize)>,
    pub entry_point_rva: u32,
    pub size_of_headers: u32,
    pub size_of_image: u32,
    pub file_size: u64,
}

/// Model of an image before it is written.
#[verifier::ext_equal]
pub struct LayoutView {
    pub image_base: u64,
    pub machine: u16,
    pub sections: Seq<OutputView>,
    pub objects: Seq<ObjectView>,
    pub symbol_addresses: Seq<Seq<Option<u64>>>,
    pub global_definitions: Map<Seq<char>, (usize, usize)>,
    pub entry_point_rva: u32,
    pub size_of_headers: u32,
    pub size_of_image: u32,
    pub file_size: u64,
}

/// The contents of a list of lists.
pub open spec fn rows<T>(table: Seq<Vec<T>>) -> Seq<Seq<T>> {
    Seq::new(table.len(), |i: int| table[i]@)
}

impl View for PeLayout {
    type V = LayoutView;

    open spec fn view(&self) -> LayoutView {
        LayoutView {
            image_base: self.image_base,
            machine: self.machine,
            sections: pe_section::output_views(self.sections@),
            objects: input::object_views(self.objects@),
            symbol_addresses: rows(self.symbol_addresses@),
            global_definitions: self.global_definitions@,
            entry_point_rva: self.entry_point_rva,
            size_of_headers: self.size_of_headers,
            size_of_image: self.size_of_image,
            file_size: self.file_size,
        }
    }
}

/// The model of what `compute_layout` returns.
pub open spec fn result_view(r: Result<PeLayout, LinkError>) -> Result<LayoutView, LinkError> {
    match r {
        Ok(layout) => Ok(layout@),
        Err(e) => Err(e),
    }
}

// ---- addresses of the output sections ----

/// The size of the headers in the file.
pub open spec fn headers_end(num_sections: int) -> int {
    align::aligned(pe_writer::header_bytes(num_sections), FILE_ALIGNMENT as int)
}

/// The address, relative to the image base, of what comes behind the first `k` sections.
pub open spec fn rva_at(outputs: Seq<OutputView>, k: int) -> int
    decreases k,
{
    if k <= 0 {
        align::aligned(headers_end(outputs.len() as int), SECTION_ALIGNMENT as int)
    } else {
        align::aligned(
            rva_at(outputs, k - 1) + outputs[k - 1].virtual_size,
            SECTION_ALIGNMENT as int,
        )
    }
}

/// The bytes that a section takes up in the file.
pub open spec fn file_extent(output: OutputView) -> int {
    if output.is_bss {
        0
    } else {
        align::aligned(output.raw_data_size as int, FILE_ALIGNMENT as int)
    }
}

/// The place in the file of what comes behind the first `k` sections.
pub open spec fn file_at(outputs: Seq<OutputView>, k: int) -> int
    decreases k,
{
    if k <= 0 {
        headers_end(outputs.len() as int)
    } else {
        file_at(outputs, k - 1) + file_extent(outputs[k - 1])
    }
}

/// Why the `k`-th section cannot be given its addresses, if those in front of it can.
pub open spec fn step_error(outputs: Seq<OutputView>, k: int) -> Option<LinkError> {
    let output = outputs[k];
    if !output.is_bss && output.raw_data_size + FILE_ALIGNMENT > u32::MAX {
        Some(LinkError::ArithmeticOverflow)
    } else if !output.is_bss && file_at(outputs, k + 1) > u32::MAX {
        Some(LinkError::FileSizeOverflow)
    } else if rva_at(outputs, k) + output.virtual_size > u32::MAX {
        Some(LinkError::ImageSizeOverflow)
    } else if rva_at(outputs, k) + output.virtual_size + SECTION_ALIGNMENT > u32::MAX {
        Some(LinkError::ArithmeticOverflow)
    } else {
        None
    }
}

/// Why the first `k` sections cannot all be given their addresses.
pub open spec fn address_error(outputs: Seq<OutputView>, k: int) -> Option<LinkError>
    decreases k,
{
    if k <= 0 {
        let headers = pe_writer::header_bytes(outputs.len() as int);
        if headers + FILE_ALIGNMENT > u32::MAX || headers_end(outputs.len() as int)
            + SECTION_ALIGNMENT > u32::MAX {
            Some(LinkError::ArithmeticOverflow)
        } else {
            None
        }
    } else {
        match address_error(outputs, k - 1) {
            Some(e) => Some(e),
            None => step_error(outputs, k - 1),
        }
    }
}

/// The `k`-th section with its addresses.
pub open spec fn placed_output(outputs: Seq<OutputView>, k: int) -> OutputView {
    OutputView {
        virtual_address: rva_at(outputs, k) as u32,
        file_offset: if outputs[k].is_bss {
            0
        } else {
            file_at(outputs, k) as u32
        },
        raw_data_size: if outputs[k].is_bss {
            outputs[k].raw_data_size
        } else {
            file_extent(outputs[k]) as u32
        },
        ..outputs[k]
    }
}

/// The sections with their addresses.
pub open spec fn placed_outputs(outputs: Seq<OutputView>) -> Seq<OutputView> {
    Seq::new(outputs.len(), |k: int| placed_output(outputs, k))
}

// ---- the layout ----

/// The section with its place in the output, if it has one.
pub open spec fn placed_section(
    section: SectionView,
    outputs: Seq<OutputView>,
    i: int,
    j: int,
) -> SectionView {
    match pe_grouping::home(outputs, i, j) {
        Some((k, offset)) if !pe_section::is_discarded(section) => pe_grouping::with_output(
            section,
            Some(k),
            offset,
        ),
        _ => section,
    }
}

/// The object with its sections in their places.
pub open spec fn placed_object(object: ObjectView, outputs: Seq<OutputView>, i: int) -> ObjectView {
    ObjectView {
        sections: Seq::new(
            object.sections.len(),
            |j: int| placed_section(object.sections[j], outputs, i, j),
        ),
        ..object
    }
}

/// Whether section `j` of object `i` is discarded but already claims a place in the output.
pub open spec fn is_false_claim(objects: Seq<ObjectView>, i: int, j: int) -> bool {
    &&& pe_grouping::has_section(objects, i, j)
    &&& pe_section::is_discarded(objects[i].sections[j])
    &&& objects[i].sections[j].output_section is Some
}

/// The layout of an image made of the objects, with its symbols not yet resolved.
pub open spec fn layout_of(base_address: Option<u64>, objects: Seq<ObjectView>) -> Result<
    LayoutView,
    LinkError,
> {
    match pe_grouping::groups(objects) {
        Err(e) => Err(e),
        Ok(groups) => {
            let outputs = pe_grouping::sorted(groups);
            if exists|i: int, j: int| is_false_claim(objects, i, j) {
                Err(LinkError::SectionRemap)
            } else {
                match address_error(outputs, outputs.len() as int) {
                    Some(e) => Err(e),
                    None => Ok(
                        LayoutView {
                            image_base: match base_address {
                                Some(base) => base,
                                None => IMAGE_BASE_X64,
                            },
                            machine: pe::IMAGE_FILE_MACHINE_AMD64,
                            sections: placed_outputs(outputs),
                            objects: Seq::new(
                                objects.len(),
                                |i: int| placed_object(objects[i], outputs, i),
                            ),
                            symbol_addresses: Seq::new(
                                objects.len(),
                                |i: int|
                                    Seq::new(objects[i].symbols.len(), |s: int| None::<u64>),
                            ),
                            global_definitions: Map::empty(),
                            entry_point_rva: 0,
                            size_of_headers: headers_end(outputs.len() as int) as u32,
                            size_of_image: rva_at(outputs, outputs.len() as int) as u32,
                            file_size: file_at(outputs, outputs.len() as int) as u64,
                        },
                    ),
                }
            }
        },
    }
}

/// Whether a section has been marked: one that is not discarded has a place, and nothing else has
/// changed.
spec fn is_marked(before: SectionView, after: SectionView) -> bool {
    if pe_section::is_discarded(before) {
        after == before
    } else {
        &&& after.output_section is Some
        &&& after == pe_grouping::with_output(before, after.output_section, after.output_offset)
    }
}

/// Whether all sections of an object have been marked.
spec fn is_marked_object(before: ObjectView, after: ObjectView) -> bool {
    &&& after.path == before.path
    &&& after.symbols == before.symbols
    &&& after.sections.len() == before.sections.len()
    &&& forall|j: int|
        0 <= j < before.sections.len() ==> is_marked(before.sections[j], #[trigger] after.sections[j])
}

/// Groups the input sections into output sections.
fn group_sections(objects: &mut Vec<InputObject>) -> (r: Result<Vec<OutputSection>, LinkError>)
    ensures
        match r {
            Ok(sections) => {
                &&& pe_grouping::groups(input::object_views(old(objects)@)) == Ok::<
                    Seq<OutputView>,
                    LinkError,
                >(pe_section::output_views(sections@))
                &&& final(objects)@.len() == old(objects)@.len()
                &&& forall|i: int|
                    0 <= i < old(objects)@.len() ==> is_marked_object(
                        old(objects)@[i]@,
                        (#[trigger] final(objects)@[i])@,
                    )
            },
            Err(e) => pe_grouping::groups(input::object_views(old(objects)@)) == Err::<
                Seq<OutputView>,
                LinkError,
            >(e),
        },
{
    let ghost before = input::object_views(objects@);
    let mut sections: Vec<OutputSection> = Vec::new();
    assert(pe_section::output_views(sections@) =~= Seq::<OutputView>::empty());
    let mut i: usize = 0;
    while i < objects.len()
        invariant
            i <= objects@.len(),
            objects@.len() == old(objects)@.len(),
            before == input::object_views(old(objects)@),
            forall|a: int| i <= a < objects@.len() ==> objects@[a] == old(objects)@[a],
            forall|a: int|
                0 <= a < i ==> is_marked_object(old(objects)@[a]@, (#[trigger] objects@[a])@),
            pe_grouping::grouped(before, i as int, 0) == Ok::<Seq<OutputView>, LinkError>(
                pe_section::output_views(sections@),
            ),
        decreases objects@.len() - i,
    {
        let mut j: usize = 0;
        assert(before[i as int] == old(objects)@[i as int]@);
        while j < objects[i as usize].sections.len()
            invariant
                i < objects@.len(),
                objects@.len() == old(objects)@.len(),
                before == input::object_views(old(objects)@),
                before[i as int] == old(objects)@[i as int]@,
                forall|a: int| i < a < objects@.len() ==> objects@[a] == old(objects)@[a],
                forall|a: int|
                    0 <= a < i ==> is_marked_object(old(objects)@[a]@, (#[trigger] objects@[a])@),
                j <= objects@[i as int].sections@.len(),
                objects@[i as int].path == old(objects)@[i as int].path,
                objects@[i as int].symbols == old(objects)@[i as int].symbols,
                objects@[i as int].sections@.len() == old(objects)@[i as int].sections@.len(),
                forall|b: int|
                    j <= b < objects@[i as int].sections@.len()
                        ==> objects@[i as int].sections@[b] == old(objects)@[i as int].sections@[b],
                forall|b: int|
                    0 <= b < j ==> is_marked(
                        old(objects)@[i as int].sections@[b]@,
                        (#[trigger] objects@[i as int].sections@[b])@,
                    ),
                pe_grouping::grouped(before, i as int, j as int) == Ok::<
                    Seq<OutputView>,
                    LinkError,
                >(pe_section::output_views(sections@)),
            decreases objects@[i as int].sections@.len() - j,
        {
            assert(before[i as int].sections[j as int] == objects@[i as int].sections@[j as int]@);
            if !should_discard_section(&objects[i].sections[j]) {
                match place_section(&mut sections, &objects[i].sections[j], i, j) {
                    Ok((group, offset)) => {
                        objects[i].sections[j].output_section = Some(group);
                        objects[i].sections[j].output_offset = offset;
                    },
                    Err(e) => {
                        proof {
                            pe_grouping::lemma_grouped_error(before, i as int, j + 1);
                        }
                        return Err(e);
                    },
                }
            }
            j += 1;
        }
        i += 1;
    }
    Ok(sections)
}

/// The alignments are powers of two.
proof fn lemma_alignments()
    ensures
        align::is_power_of_two(FILE_ALIGNMENT as int),
        align::is_power_of_two(SECTION_ALIGNMENT as int),
{
    power2::lemma2_to64();
    assert(FILE_ALIGNMENT == power2::pow2(9));
    assert(SECTION_ALIGNMENT == power2::pow2(12));
}

/// An error stays.
proof fn lemma_address_error(outputs: Seq<OutputView>, k: int, n: int)
    requires
        0 <= k <= n,
        address_error(outputs, k) is Some,
    ensures
        address_error(outputs, n) == address_error(outputs, k),
    decreases n,
{
    if k < n {
        lemma_address_error(outputs, k, n - 1);
    }
}

/// Gives the sections their addresses, and returns the sizes of the headers, the image and the
/// file.
fn assign_addresses(sections: &mut Vec<OutputSection>) -> (r: Result<(u32, u32, u64), LinkError>)
    ensures
        ({
            let outputs = pe_section::output_views(old(sections)@);
            match r {
                Ok((headers, image, file)) => {
                    &&& address_error(outputs, outputs.len() as int) is None
                    &&& pe_section::output_views(final(sections)@) == placed_outputs(outputs)
                    &&& headers == headers_end(outputs.len() as int)
                    &&& image == rva_at(outputs, outputs.len() as int)
                    &&& file == file_at(outputs, outputs.len() as int)
                },
                Err(e) => address_error(outputs, outputs.len() as int) == Some(e),
            }
        }),
{
    let ghost outputs = pe_section::output_views(sections@);
    let ghost n = outputs.len() as int;
    proof {
        lemma_alignments();
        if address_error(outputs, 0) is Some {
            lemma_address_error(outputs, 0, n);
        }
    }
    let headers_raw = match checked_headers_size(sections.len()) {
        Some(size) => size,
        None => return Err(LinkError::ArithmeticOverflow),
    };
    if headers_raw > u32::MAX - FILE_ALIGNMENT {
        return Err(LinkError::ArithmeticOverflow);
    }
    let size_of_headers = align_up(headers_raw, FILE_ALIGNMENT);
    if size_of_headers > u32::MAX - SECTION_ALIGNMENT {
        return Err(LinkError::ArithmeticOverflow);
    }
    let mut next_rva = align_up(size_of_headers, SECTION_ALIGNMENT);
    let mut next_file_offset = size_of_headers;
    let mut k: usize = 0;
    while k < sections.len()
        invariant
            k <= sections@.len(),
            outputs == pe_section::output_views(old(sections)@),
            n == outputs.len(),
            sections@.len() == n,
            align::is_power_of_two(FILE_ALIGNMENT as int),
            align::is_power_of_two(SECTION_ALIGNMENT as int),
            address_error(outputs, k as int) is None,
            next_rva == rva_at(outputs, k as int),
            next_file_offset == file_at(outputs, k as int),
            forall|a: int| k <= a < n ==> sections@[a] == old(sections)@[a],
            forall|a: int| 0 <= a < k ==> (#[trigger] sections@[a])@ == placed_output(outputs, a),
        decreases n - k,
    {
        assert(outputs[k as int] == sections@[k as int]@);
        proof {
            if address_error(outputs, k + 1) is Some {
                lemma_address_error(outputs, k + 1, n);
            }
            assert(file_at(outputs, k + 1) == file_at(outputs, k as int) + file_extent(
                outputs[k as int],
            ));
        }
        sections[k].virtual_address = next_rva;
        if sections[k].is_bss {
            sections[k].file_offset = 0;
        } else {
            sections[k].file_offset = next_file_offset;
            if sections[k].raw_data_size > u32::MAX - FILE_ALIGNMENT {
                return Err(LinkError::ArithmeticOverflow);
            }
            let raw_data_size = align_up(sections[k].raw_data_size, FILE_ALIGNMENT);
            sections[k].raw_data_size = raw_data_size;
            if next_file_offset > u32::MAX - raw_data_size {
                return Err(LinkError::FileSizeOverflow);
            }
            next_file_offset = next_file_offset + raw_data_size;
        }
        let virtual_size = sections[k].virtual_size;
        if next_rva > u32::MAX - virtual_size {
            return Err(LinkError::ImageSizeOverflow);
        }
        if next_rva + virtual_size > u32::MAX - SECTION_ALIGNMENT {
            return Err(LinkError::ArithmeticOverflow);
        }
        next_rva = align_up(next_rva + virtual_size, SECTION_ALIGNMENT);
        assert(sections@[k as int]@ =~= placed_output(outputs, k as int));
        k += 1;
    }
    assert(pe_section::output_views(sections@) =~= placed_outputs(outputs));
    Ok((size_of_headers, next_rva, next_file_offset as u64))
}

/// Returns a table of so many unknown addresses.
fn unknown_addresses(objects: &Vec<InputObject>) -> (table: Vec<Vec<Option<u64>>>)
    ensures
        table@.len() == objects@.len(),
        forall|i: int|
            0 <= i < objects@.len() ==> (#[trigger] table@[i])@ == Seq::new(
                objects@[i].symbols@.len(),
                |s: int| None::<u64>,
            ),
{
    let mut table: Vec<Vec<Option<u64>>> = Vec::new();
    let mut i: usize = 0;
    while i < objects.len()
        invariant
            i <= objects@.len(),
            table@.len() == i,
            forall|a: int|
                0 <= a < i ==> (#[trigger] table@[a])@ == Seq::new(
                    objects@[a].symbols@.len(),
                    |s: int| None::<u64>,
                ),
        decreases objects@.len() - i,
    {
        let mut row: Vec<Option<u64>> = Vec::new();
        let n = objects[i].symbols.len();
        let mut j: usize = 0;
        while j < n
            invariant
                j <= n,
                row@.len() == j,
                forall|b: int| 0 <= b < j ==> row@[b] == None::<u64>,
            decreases n - j,
        {
            row.push(None);
            j += 1;
        }
        assert(row@ =~= Seq::new(objects@[i as int].symbols@.len(), |s: int| None::<u64>));
        table.push(row);
        i += 1;
    }
    table
}

/// What the sorted output sections say of the sections of the objects.
proof fn lemma_places(objects: Seq<ObjectView>, outputs: Seq<OutputView>)
    requires
        pe_grouping::is_indexable(objects),
        outputs.len() <= usize::MAX,
        pe_grouping::groups(objects) is Ok,
        outputs == pe_grouping::sorted(pe_grouping::groups(objects)->Ok_0),
    ensures
        pe_grouping::holds_before(objects, outputs, objects.len() as int, 0),
        forall|i: int, j: int|
            pe_grouping::has_section(objects, i, j) ==> (#[trigger] pe_grouping::home(
                outputs,
                i,
                j,
            ) is Some <==> !pe_section::is_discarded(objects[i].sections[j])),
{
    pe_grouping::lemma_grouped(objects, objects.len() as int, 0);
    pe_grouping::lemma_sorted(
        objects,
        pe_grouping::groups(objects)->Ok_0,
        objects.len() as int,
        0,
    );
    assert forall|i: int, j: int|
        pe_grouping::has_section(objects, i, j) implies (#[trigger] pe_grouping::home(
        outputs,
        i,
        j,
    ) is Some <==> !pe_section::is_discarded(objects[i].sections[j])) by {
        pe_grouping::lemma_home(outputs, i, j);
        reveal(pe_grouping::all_placed);
        reveal(pe_grouping::all_packed);
        if pe_grouping::home(outputs, i, j) is Some {
            assert(pe_grouping::is_placed(outputs, i, j));
            let (k, c) = choose|k: int, c: int|
                #[trigger] pe_grouping::contributes(outputs, k, c, i, j);
            assert(pe_grouping::is_packed(objects, outputs[k]));
            let contribution = outputs[k].contributions[c];
            assert(!pe_section::is_discarded(pe_grouping::source(objects, contribution)));
        }
    }
}

/// Objects that exist have machine integers for positions.
pub proof fn lemma_indexable(objects: Vec<InputObject>)
    ensures
        pe_grouping::is_indexable(input::object_views(objects@)),
{
    let views = input::object_views(objects@);
    assert(views.len() == objects.len());
    assert forall|i: int| 0 <= i < views.len() implies (#[trigger] views[i]).sections.len()
        <= usize::MAX && views[i].symbols.len() <= usize::MAX by {
        assert(views[i].sections.len() == objects@[i].sections.len());
        assert(views[i].symbols.len() == objects@[i].symbols.len());
    }
}

/// Lays out an image made of the objects: groups their sections into output sections, sorts these,
/// and gives them their places in memory and in the file.
pub fn compute_layout(args: &PeArgs, objects: Vec<InputObject>) -> (r: Result<PeLayout, LinkError>)
    ensures
        result_view(r) == layout_of(args.base_address, input::object_views(objects@)),
{
    let ghost before = input::object_views(objects@);
    proof {
        lemma_indexable(objects);
    }
    let mut objects = objects;
    let image_base = match args.base_address {
        Some(base) => base,
        None => IMAGE_BASE_X64,
    };
    let grouped = match group_sections(&mut objects) {
        Ok(sections) => sections,
        Err(e) => return Err(e),
    };
    let ghost marked = input::object_views(objects@);
    let mut sections = sort_sections(grouped);
    let ghost outputs = pe_section::output_views(sections@);
    proof {
        assert(outputs.len() == sections.len());
        lemma_places(before, outputs);
        assert forall|i: int, j: int|
            #[trigger] is_false_claim(before, i, j) implies pe_grouping::is_stray(
            marked,
            outputs,
            i,
            j,
        ) by {
            assert(is_marked_object(before[i], marked[i]));
            assert(is_marked(before[i].sections[j], marked[i].sections[j]));
            assert(pe_grouping::home(outputs, i, j) is None);
        }
        assert forall|i: int, j: int|
            #[trigger] pe_grouping::is_stray(marked, outputs, i, j) implies is_false_claim(
            before,
            i,
            j,
        ) by {
            assert(is_marked_object(before[i], marked[i]));
            assert(is_marked(before[i].sections[j], marked[i].sections[j]));
            assert(pe_grouping::home(outputs, i, j) is None);
        }
    }
    match remap_output_section_indices(&mut objects, &sections) {
        Ok(()) => {},
        Err(e) => {
            proof {
                let (i, j) = choose|i: int, j: int|
                    #[trigger] pe_grouping::is_stray(marked, outputs, i, j);
                assert(is_false_claim(before, i, j));
            }
            return Err(e);
        },
    }
    let ghost placed = Seq::new(before.len(), |i: int| placed_object(before[i], outputs, i));
    proof {
        assert(!exists|i: int, j: int| is_false_claim(before, i, j));
        assert forall|i: int| 0 <= i < before.len() implies (#[trigger] objects@[i])@
            == placed[i] by {
            let middle = marked[i];
            assert(is_marked_object(before[i], middle));
            assert forall|j: int| 0 <= j < before[i].sections.len() implies #[trigger]
                pe_grouping::remapped_section(middle.sections[j], outputs, i, j) == placed_section(
                before[i].sections[j],
                outputs,
                i,
                j,
            ) by {
                assert(is_marked(before[i].sections[j], middle.sections[j]));
                assert(!is_false_claim(before, i, j));
                assert(pe_grouping::has_section(before, i, j));
                let _ = pe_grouping::home(outputs, i, j);
            }
            assert(pe_grouping::remapped_object(middle, outputs, i).sections
                =~= placed[i].sections);
        }
        assert(input::object_views(objects@) =~= placed);
    }
    let (size_of_headers, size_of_image, file_size) = match assign_addresses(&mut sections) {
        Ok(sizes) => sizes,
        Err(e) => return Err(e),
    };
    let symbol_addresses = unknown_addresses(&objects);
    proof {
        let expected = layout_of(args.base_address, before)->Ok_0;
        assert forall|i: int| 0 <= i < before.len() implies (#[trigger] symbol_addresses@[i])@
            == expected.symbol_addresses[i] by {
            assert(objects@[i]@ == placed[i]);
            assert(objects@[i]@.symbols.len() == objects@[i].symbols@.len());
        }
        assert(rows(symbol_addresses@) =~= expected.symbol_addresses);
    }
    let layout = PeLayout {
        image_base,
        machine: pe::IMAGE_FILE_MACHINE_AMD64,
        sections,
        objects,
        symbol_addresses,
        global_definitions: StringHashMap::new(),
        entry_point_rva: 0,
        size_of_headers,
        size_of_image,
        file_size,
    };
    assert(layout@ =~= layout_of(args.base_address, before)->Ok_0);
    Ok(layout)
}

} // verus!
