# optdiff

Shows how optimization passes change LLVM IR and machine code. The input is what
`-mllvm -print-before-all -mllvm -print-after-all` prints; the output is one diff per pass and
function.

## Layout

- `src/` is the library. Verus proves its functions against the contracts they carry.
  - `text`, `search`, `order`, `table`: text, bytes, the order of names, a table by name.
  - `pattern`, `filter`: regular expressions, and what is taken out of a dump.
  - `dump`, `split`, `group`, `passes`: a dump is cut into passes, a pass into functions, the dumps
    of each function are gathered, and those before and after a pass are paired.
  - `parser`: the whole way from the output of a compiler to the passes of each function.
  - `functions`, `available`, `select`: the functions that are listed and picked.
  - `demangle`, `report`, `cli`: what is shown.
- `app/` is the program: arguments, files, the pager and the demangler.
- `tests/` runs the library.

## Reading the contracts

A text is the sequence of its characters. Where a dump cannot be read, the specifications give
`None`; the functions that ask for readable dumps say so in `requires`, and `try_process` and
`try_list_functions` take any text. The functions of the crates `regex`, `memchr`, `itertools` and
`similar`, and two of the standard library, are trusted: the declarations for them say what they are
trusted to do.
