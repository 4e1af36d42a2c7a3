//! A small web service: its application settings, the addresses it binds to,
//! and the routes it answers, with their replies.

pub mod address;
pub mod app;
pub mod server;
pub mod webapp;
