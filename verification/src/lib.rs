//! npurag: on-device semantic search and RAG over a local directory.

pub mod text;
pub mod json;
pub mod chunk;
pub mod lexical;
pub mod http;
pub mod extract;
pub mod walk;
pub mod config;
pub mod backend;
pub mod rerank;
pub mod search;
pub mod ask;
pub mod mcp;
pub mod watch;
pub mod index;
pub mod store;
pub mod display;
pub mod openai;
