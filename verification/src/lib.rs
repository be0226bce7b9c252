use vstd::prelude::*;

pub mod agreement;
pub mod ast;
pub mod error;
pub mod keys;
pub mod lazy;
pub mod lazy_parser;
pub mod lazy_val;
pub mod parser;
pub mod parser_core;
pub mod patch;
pub mod pointer;
pub mod roundtrip;


pub mod serializer;
pub mod simd;
pub mod single_pass_parser;
pub mod text;

pub use ast::{LazyValue, Node, Number, ObjectEntry, Trivia, Value};
pub use patch::PatchOperation;
pub use error::{Error, Result};
pub use lazy_parser::from_str_lazy;
pub use lazy_val::{KeyText, LazyNode, LazyObjectEntry, LazyVal};
pub use parser::{Parser, from_slice, from_str};
pub use parser_core::MAX_DEPTH;
pub use serializer::{
    CommentPolicy, FormatOptions, Indentation, to_string, to_string_pretty, to_vec, to_vec_pretty,
};
pub use single_pass_parser::SinglePassParser;

verus! {

} // verus!
