//! Flyover: the verified core of a pipeline that turns a source tree into a tiled 3D map.
//!
//! This crate holds the tile set formats (geometry, layer, text, path and tile-address
//! encodings with their decoders), the language and line rules of the indexer, the directory
//! tree and zoom rules of the layout stage, and the bookkeeping of the viewer's caches.

pub mod bytes;
pub mod keys;
pub mod manifest;
pub mod strings;
pub mod paths;
pub mod compress;
pub mod text;
pub mod tile;
pub mod layer;
pub mod language;
pub mod grammars;
pub mod scan;
pub mod palette;
pub mod tileset;
pub mod font;
pub mod textgrid;
pub mod tokens;
pub mod tree;
pub mod layout;
pub mod camera;
pub mod loader;
pub mod index;
pub mod cache;
pub mod cut;
pub mod symbols;
pub mod exclude;
