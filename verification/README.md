# js_compressor

A JavaScript/HTML/CSS minifier whose core is verified with Verus. The source is
read in buffers of 1024 bytes; each byte is handled once: comments and
superfluous whitespace are dropped, quoted strings and template literals are
kept, and declared names (function names, parameters, and the names declared
with `let`, `const` and `var`) get one or two letter names, `A` to `Z`, then `a`
to `z`, then two letters. A name is never given a letter that the body of a
function declared earlier used for the same name before its declaration.

The characters added to the output are counted, byte by byte or as whole
multi-byte characters, for a later compression pass. When a scope closes, its
text, renamed, is counted once more as it goes to the scope around it, so these
counts are an upper bound of what the final output holds, not its exact counts.

## What the walk does not do

- `if`/`else` statements are copied as they are written. The pieces that group
  them (`verify_if_else_statement`, the closing of a grouped statement in
  `scope_end`, `render_upper_if`) are verified on their own, but the walk never
  opens an `if` scope, so it never writes a grouped statement as `c?a:b` or
  `c&&a`.
- Scopes end only at `}`: there is no ending of scopes at `(`, `)` or `;`, and
  curly brackets are never turned into a statement ended by `;`.
- `for` opens no scope of its own: a `let` inside `for(...)` is declared in the
  scope around the loop.
- A `var` inside a block (rather than at the top of a function or of the file)
  keeps its name, since it belongs to the function around the block.
- Arrow functions declare nothing; only the first name of a declaration
  (`let a=1,b=2` declares `a`), written after exactly one space, is declared, and
  destructuring declares nothing.
- The pass that replaces frequent words of the output by unused characters is
  not part of the library.

## Layout

- `src/` — the verified library.
  - `characters.rs` — the byte values the analysis looks for.
  - `bitset.rs` — a set of small positions held in a `u64`.
  - `compression.rs` — the counts of the characters of the output, one to four
    bytes long, and how a character comes back from where it is counted.
  - `code_analysis.rs` — values, scopes and the tables that hold them; the
    choice of short names.
  - `analysis_object.rs` — the state of the walk through the buffers: reading,
    writing, comments, function names and parameters.
  - `minify.rs` — looking values up where they are used and renaming them.
  - `quoted.rs` — quoted strings and the code inside template literals.
  - `declarations.rs` — declarations with `let`, `const` and `var`.
  - `closing.rs` — closing a scope: freed names, grouped `if`/`else`
    statements, and handing the output to the scope around.
  - `compress.rs` — the walk through one buffer, byte by byte.
  - `html.rs` — the spaces and newlines of the text inside HTML elements,
    protected while the whitespace is squeezed out.
- `tests/` — tests on concrete inputs.
- `app/` — `compress_js`, which reads the input file with tokio, feeds the
  library and writes the output file. The kind of file (HTML, CSS or
  JavaScript) is recorded but changes nothing in the walk.
