# binsex

A small stack machine with its own assembly language, written in Verus.

The library (`src/`) holds the verified parts:

- `opcode`: the bytecode's opcodes and the binary container;
- `vm`: the machine's state and its one-step transition function, with a
  mathematical model (`spec_step`) that every step follows;
- `lexer`: the tokenizer of the assembly language, specified byte by byte;
- `words`: the reserved words of the language;
- `parser`: from source text to a program, collecting every fault with its
  line;
- `labels`: the table from label names to addresses;
- `assembler`: instruction sizes, label resolution and code generation;
- `legacy`: the earlier two-pass compiler that works on the token stream;
- `laws`: properties that tie the assembler to the machine.

`app/` is the command-line front end: it reads and writes files, encodes
binaries with postcard, prints what the machine asks to print, and turns
faults and compile errors into the messages and exit codes of the tools.
