//! Expansion of a declarative mesh-network topology into per-node
//! configuration documents.
//!
//! A topology is an ordered list of node specifications, each a mapping from
//! attribute name to scalar value with a mandatory identity attribute.  For
//! every node the engine derives one document: an `[Interface]` block holding
//! the node's own local attributes, then one `[Peer]` block per other node
//! holding that node's relational attributes, with an `AllowedIPs` override
//! appended when the target node carries the routing flag.

pub mod errors;
pub mod expand;
pub mod input;
pub mod laws;
pub mod model;
pub mod value;

pub use errors::ConfigError;
pub use expand::{generate_all, generate_config, generate_peer_config};
pub use input::parse_topology;
pub use model::{NodeSpec, Topology};
pub use value::AttributeValue;
