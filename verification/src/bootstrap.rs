//! Strict shared bootstrap reader for Interface, Nexus, and Sema Ethos files.
//!
//! The boundary is two-phase: [`BootstrapReader::plan`] discovers every
//! declaration occurrence without identity authority, then
//! [`BootstrapReader::seal`] prepares the exact transaction draft and obtains a
//! receipt from the injected naming authority.
pub mod catalog;
pub mod error;
pub mod model;
pub mod grammar;
pub mod root;
pub mod resolution;
pub mod planning;
pub mod reader;
pub mod assignment;
pub mod sealing;
pub mod ordering;
pub mod reify;
pub mod declare;
pub mod assemble;
pub mod imports;
pub mod seal;
pub mod prepared;
pub mod laws;
pub mod writer;
