//! Distributed minimum-spanning-tree computation in the style of
//! Gallager, Humblet and Spira: every vertex of a weighted undirected
//! graph acts as an autonomous actor that exchanges messages with its
//! neighbors until the edges of the minimum spanning tree are marked.
//!
//! The library holds the verified core: the graph view, the message
//! set, the per-vertex protocol state machine, and a deterministic
//! scheduler that drives the actors to termination.

mod connect;
mod graph;
mod inbox;
mod key;
mod mst;
mod node;
mod parse;
mod sim;
mod solve;

pub use graph::GraphError;
pub use graph::GraphView;
pub use inbox::Inbox;
pub use key::EdgeKey;
pub use mst::get_mst_from_data;
pub use node::Effects;
pub use node::Message;
pub use node::Node;
pub use node::State;
pub use node::Status;
pub use parse::ParseError;
pub use parse::parse_input;
pub use sim::RunError;
pub use sim::check_outcome;
pub use sim::run_ghs;
pub use solve::MstError;
pub use solve::compute_mst;
