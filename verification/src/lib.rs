//! Statistical structure of build orders: a token model over action
//! sequences, maximum-likelihood segmentation, sequence alignment, weighted
//! comparison and a compressed prefix tree.

pub mod error;
pub mod text;
pub mod aligner;
pub mod bignat;
pub mod tokens;
pub mod model;
pub mod segmenter;
pub mod optimality;
pub mod comparator;
pub mod pairs;
pub mod builds;
pub mod cluster;
pub mod paths;
pub mod population;
pub mod replay;
pub mod search;
