//! The settings of the service.

pub mod application;
