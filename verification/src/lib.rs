pub mod addr;
pub mod config;
pub mod honeypot;
pub mod server;
pub mod session;
pub mod shared;
pub mod text;
