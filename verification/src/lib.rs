//! A versioned store of rectangles and lines, and the script language that
//! fills it.
//!
//! A script is a text of statements that add, modify and delete named
//! entities, grouped into commits by the word `COMMIT`. [`public::parse`]
//! reads a script and replays its commits on an empty store; each commit
//! creates one version. The store keeps, for every entity, what it was at
//! each version, and [`db::store::Db::slice`] gives the entities that were
//! live at any one of them.
//!
//! Numbers are decimal and exact ([`decimal::Decimal`]). Names and
//! descriptions are byte strings held in `bytes::Bytes`; what is assumed of
//! that crate is stated in [`text`].

pub mod db;
pub mod decimal;
pub mod geo;
pub mod lexer;
pub mod parser;
pub mod public;
pub mod text;
