//! From input objects to the bytes of an image.
use crate::args::{Architecture, PeArgs};
use crate::error::LinkError;
use crate::input;
use crate::input::{InputObject, ObjectView};
use crate::layout_laws;
use crate::pe_inputs;
use crate::pe_inputs::{load_input_objects, InputFailure, InputFile};
use crate::pe_layout;
use crate::pe_layout::{compute_layout, LayoutView, PeLayout};
use crate::pe_symbols;
use crate::pe_symbols::{find_entry_point_rva, resolve_symbols};
use crate::pe_writer;
use crate::pe_writer::write_image;
use crate::symbol_laws;
use vstd::prelude::*;

verus! {

/// Why there is no image, and the layout as far as there was one, for messages.
pub struct LinkFailure {
    pub error: LinkError,
    pub layout: Option<PeLayout>,
}

/// Returns an error unless the image is for x86-64.
pub fn check_architecture(args: &PeArgs) -> (r: Result<(), LinkError>)
    ensures
        r == (if args.arch == Architecture::X86_64 {
            Ok::<(), LinkError>(())
        } else {
            Err(LinkError::UnsupportedArchitecture)
        }),
{
    match args.arch {
        Architecture::X86_64 => Ok(()),
        _ => Err(LinkError::UnsupportedArchitecture),
    }
}

/// The layout with its symbols resolved and its entry point found.
pub open spec fn finished(args: PeArgs, layout: LayoutView) -> Result<LayoutView, LinkError> {
    match pe_symbols::resolved(layout) {
        Err(e) => Err(e),
        Ok(result) => match pe_symbols::entry_point(
            result,
            input::text_of(args.entry),
            args.is_dll,
        ) {
            Err(e) => Err(e),
            Ok(entry_point_rva) => Ok(LayoutView { entry_point_rva, ..result }),
        },
    }
}

/// The bytes of the image that the objects are linked to.
pub open spec fn linked(args: PeArgs, objects: Seq<ObjectView>) -> Result<Seq<u8>, LinkError> {
    if objects.len() == 0 {
        Err(LinkError::NoInputs)
    } else {
        match pe_layout::layout_of(args.base_address, objects) {
            Err(e) => Err(e),
            Ok(layout) => match finished(args, layout) {
                Err(e) => Err(e),
                Ok(result) => pe_writer::image(args, result),
            },
        }
    }
}

/// Whether this is what linking the objects comes to; the layout of a failure holds the objects as
/// they were laid out.
pub open spec fn is_linked(
    args: PeArgs,
    objects: Seq<ObjectView>,
    r: Result<Vec<u8>, LinkFailure>,
) -> bool {
    match r {
        Ok(output) => linked(args, objects) == Ok::<Seq<u8>, LinkError>(output@),
        Err(failure) => {
            let before = pe_layout::layout_of(args.base_address, objects);
            &&& linked(args, objects) == Err::<Seq<u8>, LinkError>(failure.error)
            &&& match failure.layout {
                Some(layout) => before is Ok && layout@.objects == before->Ok_0.objects,
                None => objects.len() == 0 || before is Err,
            }
        },
    }
}

/// Links the objects to an image.
pub fn link_objects(args: &PeArgs, inputs: Vec<InputObject>) -> (r: Result<Vec<u8>, LinkFailure>)
    ensures
        is_linked(*args, input::object_views(inputs@), r),
{
    let ghost objects = input::object_views(inputs@);
    proof {
        pe_layout::lemma_indexable(inputs);
    }
    if inputs.len() == 0 {
        return Err(LinkFailure { error: LinkError::NoInputs, layout: None });
    }
    let mut layout = match compute_layout(args, inputs) {
        Ok(layout) => layout,
        Err(error) => return Err(LinkFailure { error, layout: None }),
    };
    let ghost before = layout@;
    proof {
        layout_laws::layouts_are_consistent(args.base_address, objects, before);
        layout_laws::headers_come_first(args.base_address, objects, before);
    }
    match resolve_symbols(&mut layout) {
        Ok(()) => {},
        Err(error) => return Err(LinkFailure { error, layout: Some(layout) }),
    }
    proof {
        symbol_laws::resolved_layouts_are_consistent(
            args.base_address,
            objects,
            before,
            layout@,
        );
    }
    match find_entry_point_rva(args, &layout) {
        Ok(entry_point_rva) => {
            layout.entry_point_rva = entry_point_rva;
        },
        Err(error) => return Err(LinkFailure { error, layout: Some(layout) }),
    }
    assert(pe_symbols::is_consistent(layout@));
    assert(pe_writer::contributions_exist(layout@));
    match write_image(args, &layout) {
        Ok(output) => Ok(output),
        Err(error) => Err(LinkFailure { error, layout: Some(layout) }),
    }
}

// ---- from inputs to the image ----

/// Why there is no image.
pub enum PeFailure {
    /// The inputs could not be loaded.
    Inputs(InputFailure),
    /// The objects could not be linked.
    Link(LinkFailure),
}

/// Whether this is what the link comes to, if the inputs were loaded so.
pub open spec fn is_linked_from(
    args: PeArgs,
    inputs: Result<Vec<InputObject>, InputFailure>,
    r: Result<Vec<u8>, PeFailure>,
) -> bool {
    match inputs {
        Err(e) => r == Err::<Vec<u8>, PeFailure>(PeFailure::Inputs(e)),
        Ok(objects) => match r {
            Ok(output) => is_linked(args, input::object_views(objects@), Ok(output)),
            Err(PeFailure::Link(failure)) => is_linked(
                args,
                input::object_views(objects@),
                Err(failure),
            ),
            Err(PeFailure::Inputs(_)) => false,
        },
    }
}

/// Reads, loads and links the inputs to an image, if it is one for x86-64.
pub fn link_pe<F: Fn(usize) -> Result<InputFile, String>>(
    args: &PeArgs,
    num_inputs: usize,
    read_input: &F,
) -> (r: Result<Vec<u8>, PeFailure>)
    requires
        forall|k: usize| k < num_inputs ==> #[trigger] call_requires(read_input, (k,)),
    ensures
        if args.arch == Architecture::X86_64 {
            exists|files: Seq<InputFile>, inputs: Result<Vec<InputObject>, InputFailure>|
                #[trigger] pe_inputs::inputs_end(num_inputs, *read_input, files, inputs)
                    && is_linked_from(*args, inputs, r)
        } else {
            r == Err::<Vec<u8>, PeFailure>(
                PeFailure::Link(
                    (LinkFailure { error: LinkError::UnsupportedArchitecture, layout: None }),
                ),
            )
        },
{
    match check_architecture(args) {
        Ok(()) => {},
        Err(error) => return Err(PeFailure::Link(LinkFailure { error, layout: None })),
    }
    let inputs = load_input_objects(num_inputs, read_input);
    let ghost loaded = inputs;
    let r = match inputs {
        Err(e) => Err(PeFailure::Inputs(e)),
        Ok(objects) => match link_objects(args, objects) {
            Ok(output) => Ok(output),
            Err(failure) => Err(PeFailure::Link(failure)),
        },
    };
    assert(is_linked_from(*args, loaded, r));
    r
}

} // verus!
