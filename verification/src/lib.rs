//! Probabilistic disassembly over superset decodings: the structural half.

pub mod addresses;
pub mod adversary;
pub mod bench;
pub mod calibration;
pub mod cli;
pub mod confirm;
pub mod corpus;
pub mod cover;
pub mod credibility;
pub mod decoder;
pub mod dominators;
pub mod dwarf;
pub mod factors;
pub mod firerate;
pub mod flowgraph;
pub mod forge;
pub mod gates;
pub mod gauntlet;
pub mod hashing;
pub mod hints;
pub mod histogram;
pub mod idset;
pub mod image;
pub mod labels;
pub mod le;
pub mod levels;
pub mod options;
pub mod optlevels;
pub mod order;
pub mod probe;
pub mod reals;
pub mod recovery;
pub mod regime;
pub mod rows;
pub mod split;
pub mod superset;
pub mod switching;
pub mod synth;
pub mod table;
pub mod text;
pub mod transport;
pub mod truth;
pub mod upx;
