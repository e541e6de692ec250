# pelink

A linker for x86-64 PE images, and a comparator for linked images, written in Verus.

The linker reads COFF objects and archives, loads the archive members that are needed, groups the
input sections into output sections, gives these their places in memory and in the file, resolves
symbols, applies relocations and writes the image. The comparator says on which aspects an image
agrees with none of the images that it is compared with.

- `src/` is the verified library. Each public function states what it returns for every input; the
  modules whose names end in `_laws` state what holds of all layouts, images, inputs and reports.
- `src/coff.rs`, `src/pe_file.rs`, `src/elf_diff.rs`, `src/file_name.rs`, `src/text.rs` and
  `src/text_set.rs` hold the few functions that call `object`, `hashbrown` or the standard library
  and whose contracts are taken on trust. The `object` crate reads the file formats; everything
  behind it is proved.
- `app/` reads and writes files and turns errors into messages.
- `tests/` runs the library on concrete objects, archives and images.
