use vstd::prelude::*;

pub mod text;
pub mod varint;
pub mod node;
pub mod node_order;
pub mod trie;
pub mod leapfrog;
pub mod keybuf;
pub mod indexes;
pub mod backend;
pub mod bytes;
pub mod inmemory;
pub mod pattern;
pub mod quad_store;
pub mod transaction;
pub mod sdk;
pub mod simd_encode;
pub mod simd;
pub mod observability;
pub mod lexical;
pub mod string_sets;
pub mod turtle_lines;
pub mod schema;
pub mod vehicle;
pub mod engine;
pub mod av_ontology;
pub mod sim_bridge;
pub mod lubm;
pub mod csv_ttl;
pub mod routes;

verus! {

} // verus!
