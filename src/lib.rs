//! A binary tree whose nodes link both downward to their children and upward
//! to their parent, kept in an arena and addressed by position.

pub mod laws;
pub mod model;
pub mod node;
pub mod tree;
