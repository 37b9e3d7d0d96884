//! What the operations of the library are for, said of what goes in and what
//! comes out.
pub mod calls;
pub mod cleaning;
pub mod content;
pub mod counting;
pub mod display;
pub mod division;
pub mod facts;
pub mod files;
pub mod loops;
pub mod marks;
pub mod numbers;
pub mod programs;
pub mod references;
pub mod replies;
pub mod report;
pub mod requests;
pub mod rights;
pub mod samples;
pub mod scoring;
pub mod settings;
pub mod sound;
pub mod times;
pub mod transcript;
pub mod voices;
