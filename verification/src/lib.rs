//! A rope-based text buffer: a binary tree of text fragments that supports
//! insertion, concatenation and substring extraction by character index, and
//! a cursor that follows a position in such a buffer.

pub mod cursor;
pub mod error;
pub mod laws;
pub mod model;
pub mod node;
pub mod text;
