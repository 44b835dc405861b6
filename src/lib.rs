//! Whitespace-separated tokens read one line at a time.
//!
//! The library holds the buffering and splitting logic of two tokenizers:
//! [`Scanner`], which keeps a queue of owned tokens, and [`UnsafeScanner`],
//! which keeps one reused byte buffer and a cursor into it. Reading lines from
//! a source and parsing token text into typed values is left to the caller:
//! each `token` call either hands out the next token or reports that a fresh
//! line is needed, which the caller then passes to `refill`. Both tokenizers
//! split on the same whitespace, that of `char::is_whitespace`, and hand out
//! the same tokens for the same text; `session` states what a caller receives
//! over many calls.
pub mod words;
pub mod scanner;
pub mod fast;
pub mod session;

pub use fast::UnsafeScanner;
pub use scanner::Scanner;
