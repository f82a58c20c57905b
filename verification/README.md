# dumper_rust

A protocol and model dumper for MSVC x64 DLLs: it reads a PE image, indexes
its RTTI, finds the protocol's packet and event templates, resolves each
model's fields from the initializers that register them, groups polymorphic
models with their variants and discriminator values, and writes the result
as JSON or as a compact line-oriented text.

The library under `src/` is written in Verus. Its functions carry
contracts that Verus proves against the library's own code; where the code
calls another crate, the proof rests on small trusted wrappers whose
contracts are believed rather than proved. How much a contract pins down
varies: where a result depends on another crate's output (the demangler,
the decoder, a user's model-resolution source), the contract names that
output and states what the library does with it. A model-resolution
source states its answers as spec functions (vtables, their functions,
lengths, which functions qualify, what extracting a function gives, and
the base classes of a model), and the resolver's contracts are stated over
those answers.

Trusted wrappers:

- `goblin` — reading the PE headers (`pe`).
- `memchr` — finding the end of a C string (`pe`).
- `msvc-demangler` — demangling RTTI names (`rtti`); only names that pass
  `is_demangle_safe` are handed to it, the others keep their
  component-by-component reading.
- `iced-x86` — decoding instructions (`decode`).
- `regex` — regular expressions (`matching`).
- `std` — UTF-8 decoding, `String::push`, and the `Debug` text of an
  optional string (`pe`, `text`).

The modules:

- `pe` — PE sections, address mapping, the function table, C strings.
- `rtti` — type descriptors, vtables, `SerializableMember` metadata, the
  class hierarchy.
- `decode`, `matching` — the instruction decoder (`iced-x86`) and regular
  expressions (`regex`) behind small trusted wrappers.
- `type_parser` — normalised and decomposed C++ type names.
- `extractor` — field registrations read from initializer code.
- `model_resolver` — choosing an initializer for each model, with
  diagnostics.
- `scanner` — packets, events, special packets, string enumerations.
- `discriminator` — discriminator values of polymorphic variants.
- `dumper` — the dump: roots, polymorphic groups, the model catalogue.
- `compact` — the compact text form.
- `listing` — the order in which the compact form lists a dump's items.
- `laws` — properties of the library as a whole.
- `names`, `text` — ordered name sets and maps, text helpers.

`app/` holds the command-line program: argument parsing, file I/O and the
JSON form of the dump.
