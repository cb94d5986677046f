//! Schema-less decoding of Protocol Buffers wire-format data.
//!
//! `wire` reads the primitive encodings (varints, fixed-width integers,
//! length-prefixed slices); `message` turns a buffer into a sequence of fields;
//! `resolve` guesses what each length-prefixed payload holds; `render` prints
//! a decoded message as an indented tree of text lines.

pub mod wire;
pub mod message;
pub mod resolve;
pub mod render;
