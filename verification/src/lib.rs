//! honeyc: a compiler for honey, a small typed language for kernel probes.
//!
//! A program goes through the modules in this order. `lexer` turns the text
//! into tokens and `parser` the tokens into a syntax tree, which `pretty` prints
//! again. `typeck` checks the tree, with the kernel's own types from `btf` where
//! it needs them. `codegen` compiles it to the instructions of `bpf`, and
//! `manifest` says what the loader has to know besides. `report` shows where an
//! error stands.
//!
//! What each of them does is stated over models: `tree` for syntax, `grammar`
//! for parsing, `rules` for types, `lowering` for code. What follows from that
//! is proved in `safety` (an accepted program obeys the rules that the checker
//! is there to enforce), `order` (the order of items does not matter to it),
//! `shape` (compiled code only jumps ahead, and inside itself), `lossless` (the
//! tokens of a text account for all of it) and `roundtrip` (parsing undoes
//! printing, by way of `relex`, `printed` and `reparse`).
//!
//! Other modules say what things mean, apart from how they are done, and prove
//! that the models agree. For texts: `reading` (literals and comments),
//! `grouping` (operators), `spans` (the text of each part), `dotted` (addresses),
//! `places` (lines and columns) and `json` (the manifest's strings).
//! For types: `typing` and `checking` (which programs are accepted), `encoded`
//! and `resolving` (the kernel's types). For code: `records` (events as C
//! structs), `machine` (what an instruction does), `running`, `meaning`, `doing`
//! and `flow` (what a probe does when its code runs) and `wire` (its bytes, how it
//! is shown, and what the loader is told).

pub mod text;
pub mod token;
pub mod lexer;
pub mod tree;
pub mod ast;
pub mod copy;
pub mod grammar;
pub mod parser;
pub mod grouping;
pub mod spans;
pub mod pretty;
pub mod bpf;
pub mod addr;
pub mod dotted;
pub mod layout;
pub mod records;
pub mod btf;
pub mod encoded;
pub mod resolving;
pub mod rules;
pub mod typeck;
pub mod typing;
pub mod safety;
pub mod checking;
pub mod order;
pub mod report;
pub mod places;
pub mod lowering;
pub mod codegen;
pub mod machine;
pub mod running;
pub mod meaning;
pub mod doing;
pub mod flow;
pub mod wire;
pub mod shape;
pub mod manifest;
pub mod json;
pub mod relex;
pub mod lossless;
pub mod reading;
pub mod printed;
pub mod reparse;
pub mod roundtrip;
