//! Incremental synchronisation of local asset files against a remote asset
//! store.
//!
//! A run finds the configs that its root config leads to ([`sync`]), makes
//! inputs of the files that match their globs ([`inputs`]), decides for each
//! input whether the identifier of the previous run still stands or the input
//! is uploaded again ([`decision`]), and leaves behind the manifest for the
//! next run ([`outcome`]) and Lua code that links to the assets ([`codegen`],
//! [`grouping`]).
//!
//! The library reads no file and opens no connection. Whoever drives a run
//! looks at the file system for it and hands in what was found. Uploads go
//! through an [`upload::UploadStrategy`], behind an [`upload::Uploader`] that
//! keeps the record of what was handed over and what came back. The inputs of
//! a run are held in the order of their names, so what a run leaves behind
//! does not depend on the order in which the files were found.

pub mod asset_name;
pub mod codegen;
pub mod data;
pub mod decision;
pub mod glob;
pub mod grouping;
pub mod hash;
pub mod inputs;
pub mod lua;
pub mod outcome;
pub mod path;
pub mod sorted;
pub mod sync;
pub mod text;
pub mod upload;
