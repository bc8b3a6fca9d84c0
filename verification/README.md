# jmap_dumper

Reads the objects of an Unreal Engine game out of a running process, a minidump or a Mach-O core
file, and gathers them by path.

`src/` is the library. It is written in [Verus](https://github.com/verus-lang/verus): contracts say
what functions return and change, and are proved. What a cache holds lies behind a shared
reference; it is stated of the table of its blocks. `app/` does the input and output.

- `pod`: values and their bytes.
- `mem`: memory, contexts, and pointers into a target.
- `cache`: memory that is read in blocks, each of which is kept.
- `macho`, `minidump_file`, `process`: where memory comes from. `placement` sorts its parts.
- `config`, `source`: where the data of a target lies, and how that is found out.
- `structs`, `objects`: layouts of structs, and the types that pointers lead to.
- `session`: questions about a target. Its memory answers those about memory, an engine the others.
  What is read is a function of the answers.
- `paths`, `property_types`, `property_values`, `object_types`: the readers.
- `model`, `values`: what is read. `pathmap`, `text`: maps by path, and text.
- `dump`: objects gathered by path.

Laws that relate several functions are public proof functions; they stand beside the functions
that they are about.
