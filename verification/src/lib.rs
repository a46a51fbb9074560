//! Decision logic of a mixture-of-experts inference engine.

pub mod attention;
pub mod attnres;
pub mod cache;
pub mod capacity;
pub mod catalog;
pub mod chunk;
pub mod convert;
pub mod decode;
pub mod dsa;
pub mod dsv4;
pub mod encode;
pub mod expert;
pub mod gpu;
pub mod group;
pub mod guard;
pub mod hc;
pub mod history;
pub mod layout;
pub mod mamba;
pub mod meminfo;
pub mod minifloat;
pub mod names;
pub mod order;
pub mod predictor;
pub mod quantize;
pub mod requant;
pub mod residency;
pub mod ring;
pub mod score;
pub mod shard;
pub mod stack;
pub mod tally;
pub mod text;
pub mod tier;
pub mod usage;
