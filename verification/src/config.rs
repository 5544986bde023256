//! User configuration data: the history capacity, the colour theme, and the
//! paths of the durable history file and the vault directory.
//!
//! Loading and saving the configuration file, and computing path defaults
//! from the user's directories, happen outside the library; here the
//! configuration is plain data that the engine reads.

use vstd::prelude::*;

verus! {

/// Colour mode for a presentation layer.
pub enum Theme {
    Dark,
    Light,
    System,
}

/// The engine's configuration.
pub struct Config {
    /// Most entries the history keeps.
    pub history_limit: usize,
    /// Colour mode for a presentation layer.
    pub theme: Theme,
    /// Path of the durable history file.
    pub storage_path: String,
    /// Directory that holds the vault files.
    pub image_storage_path: String,
}

/// The recommended history capacity.
pub const DEFAULT_HISTORY_LIMIT: usize = 50;

impl Config {
    /// A configuration from explicit parts.
    pub fn new(
        history_limit: usize,
        theme: Theme,
        storage_path: String,
        image_storage_path: String,
    ) -> (c: Config)
        ensures
            c.history_limit == history_limit,
            c.theme == theme,
            c.storage_path@ == storage_path@,
            c.image_storage_path@ == image_storage_path@,
    {
        Config { history_limit, theme, storage_path, image_storage_path }
    }
}

impl Default for Config {
    /// The recommended capacity and theme; the surrounding application fills
    /// in paths under the user's data directory.
    fn default() -> (c: Config)
        ensures
            c.history_limit == DEFAULT_HISTORY_LIMIT,
            c.theme is System,
            c.storage_path@ == Seq::<char>::empty(),
            c.image_storage_path@ == Seq::<char>::empty(),
    {
        Config {
            history_limit: DEFAULT_HISTORY_LIMIT,
            theme: Theme::System,
            storage_path: String::new(),
            image_storage_path: String::new(),
        }
    }
}

} // verus!
