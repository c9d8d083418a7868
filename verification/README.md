# dgen

A small language for generating random data, with its interpreter, verified with Verus.

A program is a list of function definitions followed by one expression, for example

```
def word() = ascii_alphanumeric_chars(uint(3, 8));
repeat_delimited(uint(1, 5), "[", word(), ", ", "]\n")
```

Running it writes the expression's output a given number of times. The interpreter provides
builtins for numbers in a range, characters and strings drawn from code point ranges, random
and stable selections, sequences, concatenation and repetition, byte order conversions, string
encodings, environment variables and regions of files; the standard libraries build on them.

## Layout

- `src/` is the verified library.
  - `text`, `scan`, `lexeme`, `parser`, `parse_facts`, `ast`: tokens, the grammar and the
    parser. A text has at most one tokenization into whole lexemes, and the parser accepts
    exactly the texts whose tokens spell a program.
  - `prototype`, `builtins`, `module`, `compiler`: function signatures, how calls are resolved
    and how an expression becomes a program of nodes.
  - `resolve`, `choice`: choosing among functions of one name with conversions to `String`,
    and building the nodes that choose among their arguments.
  - `runtime`, `outcome`, `value`, `context`, `files`: the nodes, what each can generate and
    write whatever the random numbers are, and the state that evaluation keeps.
  - `interpreter`, `program`, `stdlib`: adding libraries, compiling and running programs.
  - `errors`: how errors show the text they concern.
  - `lexer`, `csv`, `cli`, `source`: the token stream, the CSV formatter, the command line
    options and program sources.
- `tests/` runs the library on concrete programs.
- `app/` is the command line program: it reads files, standard input and the environment and
  hands them to the library.
