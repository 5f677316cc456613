//! Converts Lua and Python scripts, problem XML and arbitrary files into
//! TI-Nspire `.tns` documents.

pub mod assembly;
pub mod bytes;
pub mod cdata;
pub mod compile;
pub mod deflate;
pub mod des;
pub mod doccrypt;
pub mod notes;
pub mod outcome;
pub mod problem;
pub mod readback;
pub mod runs;
pub mod templates;
pub mod text;
pub mod tixml;
pub mod unicode;
pub mod zip_writer;

pub use compile::{compile, compile_lua, compile_notes, compile_notes_xml, compile_python};
