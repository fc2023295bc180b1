//! The combinatorial core of a rapidly-exploring random tree.
//!
//! A tree grows from a start point toward a goal, one node at a time. What
//! the points are, and how far apart two of them lie, is the caller's
//! business: the library is generic in the point and takes distances as
//! integer keys that order as the distances do. Its own business is the
//! shape of the tree, the choice of the nearest node, the way back from a
//! node to the root, and the rule that a reached goal ends the growth.
//!
//! Every function carries a contract over the mathematical model of the tree
//! (a sequence of nodes whose parents precede them), and the laws that relate
//! the functions are stated as proof functions next to them.

pub mod planner;
pub mod random;
pub mod tree;
