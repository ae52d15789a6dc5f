//! A static inverted index over the file names of a directory tree, and the
//! solver that answers conjunctive token queries against its posting lists.
//!
//! Building: `tokenizer` cuts a file name into tokens, `directory` indexes a
//! listed tree, `ranker` orders the files by the keys of `keys`, `index`
//! assigns the global indices and materializes the posting lists with the
//! help of `sorting`, `naming` names them.
//! Querying: `posting` intersects two posting lists and `solver` folds a
//! whole query; `to_constraints` and `to_iter` present queries as lists.

pub mod directory;
pub mod index;
pub mod keys;
pub mod naming;
pub mod posting;
pub mod ranker;
pub mod solver;
pub mod sorting;
pub mod to_constraints;
pub mod to_iter;
pub mod tokenizer;

pub use index::{build_index, build_with};
pub use solver::{
    first_value_nonstrict, first_value_strict, solve_constraints_nonstrict,
    solve_constraints_strict,
};
pub use to_constraints::ToConstraints;
pub use to_iter::ToIter;
