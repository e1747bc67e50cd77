//! Annotates the prose inside an HTML document with per-word glosses
//! drawn from a language dictionary, as ruby text, inline notes or
//! colored spans.  The document is split into tag-safe, size-capped
//! chunks that are annotated independently and reassembled in order.

pub mod annotation;
pub mod dict;
pub mod html;
pub mod outside;
pub mod text;
pub mod types;
