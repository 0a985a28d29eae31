# doc_script

The front end of a small language for documents, verified with Verus.

A program is a set of source files. Each file is split into tokens
(`tokenizer`), read into a syntax tree (`syntax`, `ast`), and placed in the
module of the directories it lies in. The environment (`env`) then holds the
scopes of the program: modules, struct bodies, blocks and the contents of struct
initializations, with what each scope declares, imports and names. Names are
resolved, types are linked to their structs and traits, and the program is
checked: the types of its values, the fields of its struct initializations, the
hierarchy of its structs and its entry constant `Main`.

Layout:

- `src/` — the library, every function with its contract:
  - `tokenizer.rs`, `syntax.rs`, `ast.rs`: tokens, the recursive-descent parser
    and the syntax trees, whose declarations live in arenas;
  - `parser.rs`: a table-driven LR parser, which turns tokens into a parse
    tree whose internal nodes are instances of the rules of a grammar given as
    a table of states;
  - `names.rs`: identifiers, paths and the small table used for name spaces;
  - `env/construction`: modules and scopes;
  - `env/declaration_resolution`: declarations and imports;
  - `env/name_resolution`: resolution of names, linking of types, the type
    checker and the checker of struct initializations;
  - `env/checks`: types, assignability, the traits of `std.essential` and the
    hierarchy of structs;
  - `env/env_builder.rs`: the stages that build an environment;
  - `lib.rs`: `compile`, from source files to a checked environment.
- `tests/` — the tests, run against the compiled library.
- `app/` — the command-line program: it reads the files and reports errors.
