pub mod model;
pub mod text;
pub mod sorting;
pub mod storage;
pub mod config;
pub mod sync_auth;
pub mod sync_transport;
pub mod crdt;
pub mod doc_ops;
pub mod app;
pub mod input;
pub mod session;
pub mod display;
pub mod placement;
pub mod history;
pub mod promises;
