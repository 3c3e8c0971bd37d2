//! Ecological signalling networks modelled as error-correcting codes.

pub mod galois;
pub mod gf256;
pub mod reed_solomon;
pub mod rs_laws;
pub mod rs_correction;
pub mod runs;
pub mod symbols;
pub mod phyto_code;
pub mod phyto_laws;
pub mod primitive;
pub mod burst_ecology;
pub mod distributed_spore;
pub mod hub_laws;
pub mod hub_tree;
pub mod mycorrhizal_channel;
pub mod network_shannon;

pub use distributed_spore::SporeConfig;
pub use hub_tree::{HubTree, SyndromeResult};
pub use mycorrhizal_channel::MycorrhizalChannel;
pub use phyto_code::PhytoCode;
