//! Finding and removing empty directories.
#![allow(unused_imports)]
pub mod clean;
pub mod delete;
pub mod delete_laws;
pub mod emptiness;
pub mod entry;
pub mod feed;
pub mod outline;
pub mod path;
pub mod rows;
pub mod rows_laws;
pub mod scan_laws;
pub mod session;
pub mod settings;
pub mod text;
pub mod wild;
