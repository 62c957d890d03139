//! Templates for ledger instructions: a schema-driven binary codec, parameter and
//! address resolution, and a decompiler from decoded transactions back to templates.
pub mod text;
pub mod json;
pub mod params;
pub mod error;
pub mod address;
pub mod encoding;
pub mod jsontext;
pub mod pack;
pub mod unpack;
pub mod laws;
pub mod decompile;
pub mod amount;
pub mod template;
pub mod program;
pub mod block;
