//! What the editor remembers from one run to the next.

use std::path::PathBuf;
use vstd::prelude::*;

verus! {

/// `std::path::PathBuf`, declared so that the settings can hold a path.
/// Nothing is claimed of it: the library carries such a path and never
/// looks inside.
#[verifier::external_type_specification]
#[verifier::external_body]
pub struct ExPathBuf(std::path::PathBuf);

/// The settings of the editor.
#[derive(Debug)]
pub struct Config {
    /// The files and sizes used last.
    pub recent: Option<RecentSettings>,
}

/// The files and sizes used last.
#[derive(Debug)]
pub struct RecentSettings {
    /// The file of the map.
    pub map_path: Option<PathBuf>,
    /// The number of cells in a row of the map.
    pub map_width: Option<u8>,
    /// The number of rows of the map.
    pub map_height: Option<u8>,
    /// The file of the image of the tiles.
    pub tileset_path: Option<String>,
    /// The file of the blockset.
    pub blockset_path: Option<String>,
}

impl Default for Config {
    /// Settings that remember nothing.
    fn default() -> (config: Config)
        ensures
            config.recent is None,
    {
        Config { recent: None }
    }
}

impl Default for RecentSettings {
    /// No file and no size.
    fn default() -> (recent: RecentSettings)
        ensures
            recent.map_path is None,
            recent.map_width is None,
            recent.map_height is None,
            recent.tileset_path is None,
            recent.blockset_path is None,
    {
        RecentSettings {
            map_path: None,
            map_width: None,
            map_height: None,
            tileset_path: None,
            blockset_path: None,
        }
    }
}

} // verus!
