//! Route finding on bouncy-wall maps, and the price tables used to identify
//! unknown items by their shop price.
//!
//! A map ([`cells::Cells`]) is read from text ([`parse`]); its travel graph,
//! modelled in [`grid`], is explored in [`routes`], whose results are related
//! across calls in [`laws`]. The price tables are read from comma-separated
//! text ([`table`]) and searched by price ([`price_list`]).

pub mod cell;
pub mod grid;
pub mod cells;
pub mod routes;
pub mod laws;
pub mod parse;
pub mod price_list;
pub mod table;
