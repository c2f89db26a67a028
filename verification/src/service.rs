//! Requests and replies of the service.
pub mod http;
pub mod reply;
pub mod request;
pub mod wire;
