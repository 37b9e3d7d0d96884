//! Verified core of a speech-to-text command line tool.

pub mod alignment;
pub mod asr;
pub mod assignment;
pub mod bench_cli;
pub mod chinese;
pub mod cleanup;
pub mod cli;
pub mod config;
pub mod config_files;
pub mod config_saved;
pub mod double;
pub mod evaluation;
pub mod json;
pub mod laws;
pub mod markdown;
pub mod media;
pub mod normalization;
pub mod openrouter;
pub mod ordered;
pub mod output;
pub mod pipeline;
pub mod renaming;
pub mod security;
pub mod speaker;
pub mod text;
pub mod transcript;
