//! A lunatic web framework: routing, parameters, uri readers, request
//! framing and the decisions that the server makes.
pub mod requests;
pub mod extract;
pub mod json;
pub mod websocket;
pub mod supervisor;
pub mod cookies;
pub mod response;
pub mod text;
pub mod params;
pub mod reader;
pub mod uri_reader;
pub mod router;
pub mod process_local;
