//! A small RPC framework: a service is declared once as a named list of
//! typed methods; clients frame calls from that declaration and a server
//! routes frames read off a byte stream to the matching service.

pub mod codec;
pub mod declaration;
pub mod client;
pub mod dispatch;
pub mod hello;
