//! The error type of the library.

use std::path::PathBuf;
use vstd::prelude::*;

verus! {

/// A filesystem path, carried through unchanged.
#[verifier::external_type_specification]
#[verifier::external_body]
pub struct ExPathBuf(std::path::PathBuf);

/// An I/O error, carried through unchanged.
#[verifier::external_type_specification]
#[verifier::external_body]
pub struct ExIoError(std::io::Error);

/// A JSON decoding error, carried through unchanged.
#[verifier::external_type_specification]
#[verifier::external_body]
pub struct ExJsonError(serde_json::Error);

/// Everything that can go wrong while building a preload index or serving from it.
#[derive(Debug)]
pub enum PreloadError {
    /// The split manifest file could not be read.
    ReadManifest { path: PathBuf, source: std::io::Error },
    /// The split manifest file is not valid manifest JSON.
    ParseManifest { path: PathBuf, source: serde_json::Error },
    /// `index.html` could not be read.
    ReadIndexHtml { path: PathBuf, source: std::io::Error },
    /// The dist directory could not be listed.
    ReadDistDir { path: PathBuf, source: std::io::Error },
    /// The dist directory holds no split manifest.
    MissingManifestFile { path: PathBuf },
    /// The dist directory holds more than one split manifest.
    MultipleManifestFiles { path: PathBuf },
    /// A route pattern could not be parsed.
    InvalidRoutePattern { pattern: String, reason: &'static str },
    /// No manifest key starts with a registration's split prefix.
    MissingManifestKey { prefix: String, source_name: String },
    /// Several manifest keys start with a registration's split prefix.
    AmbiguousManifestKey { prefix: String, source_name: String, matches: Vec<String> },
}

} // verus!
