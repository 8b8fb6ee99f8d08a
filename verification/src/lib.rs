//! RC parasitic extraction.
pub mod balance;
pub mod blocks;
pub mod calendar;
pub mod cli;
pub mod conserve;
pub mod coupling;
pub mod coverage;
pub mod cutting;
pub mod date;
pub mod deck;
pub mod def;
pub mod drawn;
pub mod engine;
pub mod faces;
pub mod field;
pub mod findings;
pub mod gds;
pub mod geom;
pub mod graph;
mod grid;
pub mod guard;
pub mod hookup;
pub mod job;
pub mod junction;
pub mod klayout;
pub mod landing;
pub mod lef;
pub mod limit;
pub mod lumps;
pub mod ndr;
pub mod notice;
pub mod number;
pub mod plates;
pub mod rails;
pub mod rc;
pub mod records;
pub mod refs;
pub mod roles;
pub mod rounding;
pub mod routes;
pub mod rules;
pub mod seating;
pub mod sections;
pub mod settings;
pub mod shielding;
pub mod sight;
pub mod sort;
pub mod spef;
pub mod stackup;
pub mod stated;
pub mod strmap;
pub mod tech;
pub mod text;
pub mod tokens;
pub mod traces;
pub mod tree;
pub mod version;
pub mod written;

pub use crate::version::{COPYRIGHT, VERSION};
