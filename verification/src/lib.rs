//! Character-archive backend: a verified codec that packages a character
//! definition (name, emotions, frames with image paths) together with its
//! image bytes into a single zip-container archive, and the inverse; plus a
//! shared last-value volume cell fed by an audio capture loop.

pub mod character;
pub mod codec;
pub mod doc;
pub mod escape;
pub mod lines;
pub mod paths;
pub mod text;
pub mod volume;
pub mod zipio;
