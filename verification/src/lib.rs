//! Enumeration of word squares: N x N grids whose rows and columns,
//! read in order, all spell words stored in a prefix dictionary.

pub mod error;
pub mod grid_search;
pub mod prefix_dict;
