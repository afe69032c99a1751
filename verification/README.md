# math_lang

A toy scripting language for calculating math, as a library verified with Verus, and a
command-line program around it.

- `src/` is the verified library:
  - `big_num/`: bit vectors (`ubits`), unsigned big integers (`uint`), decimal fractions
    (`decimal`), signed binary fractions with infinities and NaN (`num`), their parsing
    (`parse`) and ordering (`order`); square and cube roots by Newton and Halley steps.
  - `lexer`: the tokens of a source text, against a spec of the lexing rules.
  - `comiler`: the parser from tokens to instruction trees.
  - `var`: runtime values (`I32`, `I64`, `Real`, sequences, `None`) and their arithmetic,
    which widens instead of wrapping.
  - `scope`: name tables, scopes and user functions.
  - `runtime`: the interpreter, with builtins, modules and settings.
  - `laws`: round trips and arithmetic laws that span several functions.
- `app/` is the program: argument handling, files, the line-by-line mode, floating-point
  math for the builtins such as `sin`, and the browser entry point.
- `tests/` runs the library on concrete programs and values.
