# parser

The front end of the Raven language, verified with Verus: the tokenizer, the token-level
readers of the top level, of generics and of types, the byte cursor of the first parser
with its helpers, and the small pieces of the program model they produce.

Each step of the tokenizer and of the cursor is stated as a spec function from the state
and the source buffer to the next state and token; the executable code is proved to
follow it, and to keep its state well formed.

Layout of `src/`:

- `tokens`, `tokenizer`, `token_util`, `code_tokenizer`, `top_tokenizer`: tokens and the
  tokenizer, one module per tokenizer state family.
- `top_parser`, `type_parser`, `struct_parser`, `function_parser`: reading imports,
  attributes, modifiers, generic arguments, generic bounds and members from tokens.
- `code`: the code of a function as effects, lines and code bodies, with their values,
  and the lowering of `if`, `for`, `while` and `do`-`while` into blocks and jumps.
- `code_parser`, `operator_parser`, `control_parser`: the code parser as steps. Each step
  takes the tokens at the index and what the last read gave, says what to read next, and
  builds the effects: a line token by token, strings with their escapes, literals, `let`,
  `new` with its type and fields, call arguments and generic method calls, blocks of
  code, `if` statements, loops and user-defined operators.
- `types`, `type_relation`: finalized types, and whether one type is of another by the
  language's rules (traits included), naming what must be waited for where trait
  implementations decide.
- `parse_info`, `literal`, `parse_util`: the byte cursor of the first parser, literals,
  generics and fields.
- `modifiers`, `program`, `imports`, `settings`, `sources`: modifiers and attributes,
  spans, unparsed types, loans, imports, compiler settings and source file names.
- `text`: the calls into `std` whose contracts are trusted, and string helpers.

`app/` holds what reads files from disk.
