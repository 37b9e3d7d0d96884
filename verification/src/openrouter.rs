//! Requests to OpenRouter: what is sent, what a reply means, and what a task
//! may spend.
pub mod accounting;
pub mod catalog;
pub mod chat;
pub mod client;
pub mod failure;
pub mod repetition;
pub mod request;
pub mod stt;
