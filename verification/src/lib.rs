//! Nearest-neighbour fraud scoring over an inverted-file index.

pub mod bodies;
pub mod build_index;
pub mod clock;
pub mod codec;
pub mod compact;
pub mod evaluate;
pub mod exchange;
pub mod geometry;
pub mod index;
pub mod items;
pub mod ivf;
pub mod layout;
pub mod meaning;
pub mod parser;
pub mod pieces;
pub mod random;
pub mod ranking;
pub mod reading;
pub mod recall;
pub mod scan;
pub mod server;
pub mod timestamp;
pub mod vectorizer;
pub mod wire;
