//! Verified core of Caravan, a cooperative inference engine that runs the layers of one language
//! model on a chain of small machines.

pub mod batch;
pub mod bounds;
pub mod bytes;
pub mod cache;
pub mod chain;
pub mod chat;
pub mod client;
pub mod compute;
pub mod http;
pub mod network;
pub mod partition;
pub mod pipeline;
pub mod settings;
pub mod status;
pub mod steps;
pub mod swarm;
pub mod text;
pub mod turn;
pub mod wire;
pub mod worker;
