# alaybey

Alaybey is a small stack virtual machine with its own expression language.
A program is a block of postfix statements between `{` and `}`; a statement may
define a variable with `$ name : ...;` and later statements may read it.

    {
    $ val1 : 3 5 + 7 - 8 + 2 /;
    $ other : 10 5 - val1 * 8 + 4 /;
    }

`alaybey build prog.alaybey` checks and compiles the source into little-endian
32-bit words (`prog.alaybeyvm`); `alaybey run prog.alaybeyvm` executes them and
prints the result of each statement.

Layout:

- `src/` — the library, verified with Verus:
  - `text.rs`: whitespace, trimming, splitting, integer parsing and printing;
  - `compiler.rs`: the syntax check, the lexer and the parser, each with a
    specification over character sequences; `try_check_lexer`, `try_lexer`
    and `try_parser` report the first fault, while `check_lexer`, `lexer` and
    `parser` take only correct input;
  - `endian.rs`: reading and writing words;
  - `stack.rs`: the bounded VM stack;
  - `vm.rs`: the word format and the machine, whose `step` is specified by
    `step_spec`; `step_would_abort` tells beforehand whether a step would crash;
  - `helper.rs`: command and file names.
- `app/main.rs` — the command-line tool: files, printing, the run loop.
- `tests/` — tests of the library.
