//! Caches layered in front of a backend.

pub mod lru;
