//! Code ownership: who owns a file, and whether the declared ownership is sound.

pub mod cache;
pub mod config;
pub mod lists;
pub mod order;
pub mod outside;
pub mod ownership;
pub mod path;
pub mod path_utils;
pub mod project;
pub mod project_file_builder;
pub mod runner;
pub mod text;
pub mod view_laws;
