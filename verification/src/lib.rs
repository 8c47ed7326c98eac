//! Small verified building blocks for arithmetic expressions and basic
//! containers: an infix-to-postfix converter, a postfix evaluator, a
//! row-major matrix, a binary search tree and a complex-number value type.
//!
//! Each executable module states its contracts over a mathematical model
//! of its data. The modules that end in `_laws` and `_trees` hold what
//! follows from those models: the laws of the conversion and of the search
//! tree, and the meaning of infix and postfix token sequences as
//! expression trees.

pub mod complex;
pub mod infix;
pub mod infix_laws;
pub mod infix_trees;
pub mod matrix;
pub mod postfix;
pub mod postfix_trees;
pub mod tree;
pub mod tree_laws;
