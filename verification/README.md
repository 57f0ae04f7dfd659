# dove

The front end of the Dove scripting language, verified with Verus, and the
interpreter that runs it.

- `src/` is the verified library: the scanner, the import analysis at the
  head of a program, the parser (with a functional grammar in
  `grammar.rs` that states what every parsing function returns), the
  resolver of local variables, the error handlers, the expression printer,
  the table of built-in properties, the scopes of a running program and
  the lookup of methods and fields of classes and instances.
  `dove::compile` chains the stages; `dove::compile_without_imports`
  does the same without the import analysis, for the browser entry.
- `app/` is the `dove` command: it reads files and the prompt, and runs the
  checked statements with floating-point numbers.
- `tests/` runs the library on concrete programs.

Tables keyed by names (the resolver's scopes, the scopes of a running
program, the methods of a class and the fields of an instance) are vectors
of names and values, searched from the end, rather than
`HashMap<String, _>`. vstd specifies `HashMap` only for key types that obey
its hashing model (`obeys_key_model`); it gives that for primitive keys,
and for `String` it would have to be assumed, which this crate does not
do. Without it, nothing about what such a map holds can be proved, while
every lookup in the vectors is. The scopes of a running program refer to
the scope that encloses them by index into one arena instead of sharing
them through `Rc<RefCell<_>>`, which Verus does not support.
