//! Core business logic of NodeSpace: embedding caches, hierarchy computation,
//! query assembly and service orchestration over pluggable storage and NLP back ends.

pub mod context;
pub mod document;
pub mod embedding_cache;
pub mod errors;
pub mod hierarchy;
pub mod links;
pub mod lru;
pub mod model;
pub mod monitoring;
pub mod ordering;
pub mod query;
pub mod service;
pub mod temporal;
pub mod text;
