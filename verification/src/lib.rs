//! Indexing engine for a local catalog of image-set folders.
//!
//! A gallery is a folder that holds a sidecar file, `info.txt`. The engine
//! reads sidecars, keeps one record for each gallery folder, brings the
//! records in line with the disk when a root is scanned or a change is
//! noticed, and decides where thumbnails live and when they are made anew.
//! It reads no file and opens no socket itself: the caller hands in what
//! the disk shows and carries out what is decided.
//!
//! Every function states what it returns or changes, over the plain-text
//! views of its arguments, and is proved to do so.

pub mod commands;
pub mod db;
pub mod fetcher;
pub mod models;
pub mod natural;
pub mod numbers;
pub mod order;
pub mod page;
pub mod parser;
pub mod paths;
pub mod query;
pub mod reconcile;
pub mod scanner;
pub mod sidecar;
pub mod state;
pub mod text;
pub mod thumbnail;
pub mod watcher;
