//! A strict JSON text parser with a one-codepoint lookahead reader, kept
//! together with a handful of small verified data structures and programs.

pub mod anagram;
pub mod brainfuck;
pub mod cowsay;
pub mod json;
pub mod leap;
pub mod lifegame;
pub mod minesweeper;
pub mod nth_prime;
pub mod order;
pub mod phone_number;
pub mod pig_latin;
pub mod protein_translation;
pub mod raindrops;
pub mod rb_node;
pub mod red_black_tree;
pub mod sieve;
pub mod simple_binary_tree;
pub mod simple_linked_list;
pub mod text;
pub mod tree;
pub mod waf;
pub mod wc;
