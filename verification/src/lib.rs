pub mod host_client;
pub mod registry;
pub mod subscription;
pub mod wire;
