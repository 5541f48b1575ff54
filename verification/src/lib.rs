//! Split delivery vehicle routing: solution representation, route
//! bookkeeping, construction, repair and local-search operators.

pub mod acceptance_rule;
pub mod chain;
pub mod construction;
pub mod instance;
pub mod inter_operator;
pub mod intra_operator;
pub mod random;
pub mod repair;
pub mod delta;
pub mod distance_matrix_optimizer;
pub mod solution;
pub mod sorter;
pub mod split_reinsertion;
pub mod route_context;
pub mod ruin_method;
pub mod sdvrp;
pub mod problem;
pub mod utils;
pub mod solver;
pub mod solution2;
pub mod split_windows;
pub mod text;
pub mod instance_file;
