//! Headless core of a scene editor: the asset directory tree and the
//! undo/redo command history.

pub mod asset_browser;
pub mod assets;
pub mod commands;
pub mod directory;
pub mod editor;
pub mod loader;
pub mod path;
pub mod scene;
pub mod text;
pub mod tree_laws;
pub mod widgets;
