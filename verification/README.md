# lush

The core of a Unix shell, written in Verus: what a line of input means and what the
shell does about it is stated in contracts and proved.

    input -> tokens -> syntax tree -> walk -> what to run

`src/` is the library. It never touches the system: where a decision depends on the
file system or the environment, the caller supplies a function that looks, or is told
what to do and reports back.

- `word`, `lexer`, `ast`, `parser`: quote-aware tokens and the syntax tree
- `expand`, `glob`, `words`: variables, filename patterns, final arguments
- `assign`, `alias`, `redirect`, `path`: assignments, aliases, streams, directories
- `shell`: aliases, shell variables and the environment
- `command`, `pipeline`, `walk`, `exit`: what a command, a pipeline and a chain do
- `builtin`, `functions`, `prompt`: builtins, function files and scripts, the prompt
- `lexer_laws`, `parser_laws`, `alias_laws`, `function_laws`: laws that span several of
  these; the other modules hold theirs at the end

`app/` is the program around it: line editing with `rustyline`, files, pipes and
processes. `tests/` runs the library, among other things on a small machine with a
few programs and files.
