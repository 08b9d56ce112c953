//! A ledger of photon event chains.
pub mod convert;
pub mod counting;
pub mod dot;
pub mod drawing;
pub mod ends;
pub mod filter;
pub mod hexmap;
pub mod laws;
pub mod ledger;
pub mod maps;
pub mod model;
pub mod naming;
pub mod node;
pub mod numbering;
pub mod prune;
pub mod reach;
pub mod rebuild;
pub mod resolve;
pub mod roundtrip;
pub mod shape;
pub mod source;
pub mod sources;
pub mod text;
pub mod tree;
pub mod uid;
pub mod walk;
