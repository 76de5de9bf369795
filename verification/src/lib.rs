pub mod channel;
pub mod graph;
pub mod msgmap;
pub mod network;

pub use graph::Error;
pub use graph::Graph;
pub use graph::Vertex;
pub use msgmap::MsgMap;
pub use network::Network;
pub use network::Process;
pub use network::Worker;
pub use network::round_outputs;
