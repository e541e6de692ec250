//! A linker for x86-64 PE images, and a comparison of linked images.
pub mod align;
pub mod archive_laws;
pub mod args;
pub mod bytes;
pub mod coff;
pub mod compare_laws;
pub mod content_laws;
pub mod diff_laws;
pub mod elf_diff;
pub mod elf_laws;
pub mod error;
pub mod failure_laws;
pub mod file_name;
pub mod header_laws;
pub mod image_laws;
pub mod input;
pub mod input_laws;
pub mod layout_laws;
pub mod link_laws;
pub mod loading_laws;
pub mod object_laws;
pub mod pe;
pub mod pe_archive;
pub mod pe_diff;
pub mod pe_file;
pub mod pe_grouping;
pub mod pe_inputs;
pub mod pe_layout;
pub mod pe_link;
pub mod pe_object;
pub mod pe_reloc;
pub mod pe_section;
pub mod pe_symbols;
pub mod pe_writer;
pub mod placement_laws;
pub mod reloc_laws;
pub mod report;
pub mod room_laws;
pub mod symbol_laws;
pub mod text;
pub mod text_set;
