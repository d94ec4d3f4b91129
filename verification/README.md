# honeyc

A compiler for honey, a typed language for Linux eBPF security probes. It lexes,
parses, pretty-prints and type-checks honey programs, and compiles tracepoint
probes to BPF bytecode. The library is written in Verus: every function carries
a contract that says exactly what it returns, and Verus proves it.

## Layout

```
src/text.rs        texts and numbers as text
src/token.rs       tokens, spans, lexical errors
src/lexer.rs       text to tokens
src/tree.rs        the model of the syntax tree
src/ast.rs         the syntax tree; src/copy.rs copies it
src/grammar.rs     what each rule of the grammar reads
src/parser.rs      tokens to syntax tree
src/pretty.rs      syntax tree to text
src/bpf.rs         BPF instructions: encoder, decoder, labels, disassembler
src/addr.rs        IPv4, IPv6, MAC and CIDR literals
src/layout.rs      where the fields of an event record stand
src/btf.rs         the kernel's type information
src/rules.rs       the typing rules
src/typeck.rs      the type checker
src/safety.rs      what the rules promise of an accepted program
src/order.rs       the order of items does not matter to the checker
src/report.rs      errors as they are shown
src/lowering.rs    which instructions each construct becomes
src/codegen.rs     the code generator
src/shape.rs       what every compiled program has in common
src/manifest.rs    what the loader has to know, as JSON
src/lossless.rs    the tokens of a text account for all of it
src/relex.rs, printed.rs, reparse.rs, roundtrip.rs
                   parsing undoes printing
tests/             scenarios, one file per part
app/               the command line
```

## What is proved

- A program that the type checker accepts is safe: its loops have constant bounds
  and at most 64 iterations, and in each iteration only checked pointers are read,
  string and packet reads and argument numbers stay in bounds, only mutable locals
  are written and every `emit` sets each field once, to a value of its type; the
  offsets of packet reads are the same in every iteration, and the locals fit in
  the stack. What is wrong in any iteration of a loop is noted, once for each
  place (`safety`).
- The order of the items in a file changes neither the verdict nor the stack nor
  the set of diagnostics, where no name is declared twice (`order`).
- Compiled code saves its context first, ends in `r0 = 0; exit`, and every jump
  goes ahead and lands inside the code; its stack is a multiple of eight bytes and
  at most 512; an `emit` stores each slot of the record once, and the result of
  arithmetic narrower than 64 bits is masked to its width (`shape`).
- Printing a program and parsing it again gives the same program up to spans, so
  printing twice changes nothing (`roundtrip`).
- Each token of a text lexes alone to itself, and what stands between two tokens
  lexes to nothing (`lossless`).
- Different strings are written differently in the manifest (`manifest`).
- Decoding bytecode undoes encoding it, different instructions have different
  bytes, and resolving a program's labels sets each jump to the distance to its
  label and changes nothing else (`bpf`).
- The members of an anonymous member of a kernel type are found as members of the
  type itself, at their offsets added up, and a name in the table reads as the text
  that was written there (`btf`).

## What is trusted

Three functions of std whose results are named and not described further: the
`{:?}` form of a string and of a character, and `String::from_utf8_lossy` on bytes
that are not valid UTF-8. `String::push` is given its documented meaning.
