use vstd::prelude::*;

pub mod geom;
pub mod position;
pub mod union_find;
pub mod sized_union_find;
pub mod puzzle;
pub mod model;
pub mod side_map;
pub mod text;
pub mod lattice_parser;
pub mod puzzle_text;
pub mod pattern;
pub mod sorted;
pub mod theorem;
pub mod theorem_parse;
pub mod connect_analysis;
pub mod theorem_pool;
pub mod connect_map;
pub mod theorem_define;
pub mod solver;
pub mod search;
pub mod pprint;
pub mod parse_arg;
pub mod rules;

verus! {

} // verus!
