//! The verified core of a photo library server: search queries, tag trees,
//! galleries, ingestion, imports and downloader jobs.
pub mod auth;
pub mod config;
pub mod error;
pub mod gallery;
pub mod gallery_tags;
pub mod ids;
pub mod ingest;
pub mod listing;
pub mod media;
pub mod models;
pub mod paths;
pub mod pattern;
pub mod routes;
pub mod rules;
pub mod search;
pub mod sql;
pub mod storage;
pub mod strmap;
pub mod tags;
pub mod tagtree;
pub mod tagwalk;
pub mod text;
pub mod textset;
