pub mod mask;
pub mod index;
pub mod block;
pub mod view;
pub mod storage;
pub mod component;
pub mod query;
pub mod registry;
pub mod world;
pub mod system;
pub mod laws;
pub mod dsl;
pub mod declared;
