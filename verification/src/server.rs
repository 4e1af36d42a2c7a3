//! The HTTP service: its routes, and the replies of its handlers.

pub mod http;
pub mod route_handler;
