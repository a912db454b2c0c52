//! Route planning for a small delivery cart: a packed distance/direction
//! table, an indexed priority frontier, a shortest-path seeder and a 2-opt
//! tour improver, together with the small containers the firmware uses.
pub mod binary_tree;
pub mod bitops;
pub mod frontier;
pub mod hash;
pub mod matrix;
pub mod records;
pub mod seeder;
pub mod tour;
pub mod utility;

pub use binary_tree::{BinaryTree, Subtree, TreeKey, TreeNode};
pub use bitops::{bits16, bits8, comp16, comp24, decomp16, decomp24};
pub use frontier::Frontier;
pub use hash::{NaiveXORHasher, NaiveXORHasherBuilder};
pub use matrix::{ext_dm, inverse_direction, DistanceMatrix};
pub use seeder::{k_dijkstra, relax, Node};
pub use tour::{calc_tour_cost, swap_edges, two_opt};
pub use utility::vec_matches;
