//! A keyed hash forest: a revocable, growable family of symmetric keys
//! indexed by integers, derived by hash chains down a fixed tree topology.
pub mod crypto;
pub mod error;
pub mod khf;
pub mod kht;
pub mod laws;
pub mod node;
pub mod roots;
pub mod topology;

pub use crate::crypto::Key;
pub use crate::error::{Error, Result};
pub use crate::khf::{Consolidation, Khf};
pub use crate::kht::Kht;
pub use crate::node::Node;
pub use crate::topology::{Pos, Topology};
