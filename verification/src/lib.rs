//! Podcast and music content management for an iPod: reading feeds, naming
//! episode files, deciding which old episodes to prune, and planning how local
//! content is mirrored onto the device.
pub mod text;
pub mod paths;
pub mod config;
pub mod feed;
pub mod prepare;
pub mod summary;
pub mod sync;
pub mod cli;
