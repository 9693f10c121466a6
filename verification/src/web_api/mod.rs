//! The request model, routing and request parsing of a small HTTP server.
pub mod api_register;
pub mod http_server;
