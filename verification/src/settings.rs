//! The user's settings: which folder is organized, whether it is watched,
//! and what happens when a destination is taken.
use vstd::prelude::*;

use crate::executor::Collision;

verus! {

/// What the user chose.
#[derive(Debug, Clone, PartialEq, Eq)]
pub struct Settings {
    /// The folder to organize, once one was picked.
    pub folder: Option<String>,
    /// Whether the folder is watched and tidied as files arrive.
    pub watching: bool,
    /// What to do when a destination is taken.
    pub on_collision: Collision,
}

impl Default for Settings {
    /// The settings of a first launch: no folder, not watching, and a taken
    /// destination makes the newcomer take a free name.
    fn default() -> (r: Settings)
        ensures
            r.folder.is_none(),
            !r.watching,
            r.on_collision == Collision::Suffix,
    {
        Settings { folder: None, watching: false, on_collision: Collision::Suffix }
    }
}

} // verus!
