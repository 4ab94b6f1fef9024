//! The verified core of the atlas621 pipeline: the integer data structures and
//! rules that turn the e621 exports into the map dataset.

pub mod bin;
pub mod checksum;
pub mod communities;
pub mod csr;
pub mod edges;
pub mod emit;
pub mod exports;
pub mod hex;
pub mod history;
pub mod names;
pub mod num;
mod fxmap;
pub mod pairs;
pub mod posts;
pub mod previous;
pub mod search;
pub mod sorting;
pub mod tags;
pub mod territories;
pub mod text;
pub mod wiki;

