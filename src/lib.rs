pub mod bytes;
pub mod capabilities;
pub mod config;
pub mod factory;
pub mod lifecycle;
pub mod proxy;
