//! Route-aware preload planning for client-side-rendered apps built with split WASM bundles.

pub mod text;
pub mod error;

pub use error::PreloadError;
pub mod pattern;

pub use pattern::RoutePattern;
pub mod order;
pub mod manifest;

pub use manifest::TrunkWasmSplitManifest;
pub mod registry;

pub use registry::{PreloadRegistration, PreloadRegistry, RegisteredPreload};
pub mod index;

pub use index::{PreloadIndex, PreloadIndexEntry, ResolvedPreloads};
pub mod html;

pub use html::{asset_href, render_html_with_preloads, HtmlResponseBackend, IndexHtmlTemplate};
pub mod serving;

pub use serving::SpaFallbackBuilder;
pub mod attributes;
