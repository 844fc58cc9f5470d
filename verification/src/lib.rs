//! Small `no_std`-style building blocks: fixed-capacity collections, text
//! codecs and parsers, each with a machine-checked contract.
use vstd::prelude::*;

mod lines;
mod text;
pub mod arraystring;
pub mod arrayvec;
pub mod color;
pub mod csv;
pub mod csv_roundtrip;
pub mod decimal;
pub mod fast_math;
pub mod glob;
pub mod ini;
pub mod json;
pub mod json_tree;
pub mod json_chunks;
pub mod json_roundtrip;
pub mod pool;
pub mod ring;
pub mod slug;
pub mod str_search;
pub mod toml;
pub mod linear_map;
pub mod numstr;
pub mod url_encode;
pub mod utf8;
pub mod xml_escape;

verus! {
} // verus!

