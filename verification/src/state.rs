//! What the running application holds: the catalog, where thumbnails are
//! cached, the settings, the status of the scan, and the roots that are
//! being watched.
//!
//! The state is one value that is handed to every operation. Locking it
//! against concurrent use is left to the caller.

use crate::db::{holds_text, Database};
use crate::models::{strings_view, AppSettings, ScanStatus};
use vstd::prelude::*;

verus! {

/// The state of the application.
pub struct AppState {
    pub db: Database,
    pub cache_dir: String,
    pub settings: AppSettings,
    pub scan_status: ScanStatus,
    pub watchers: Vec<String>,
}

impl AppState {
    /// The state at start: the catalog `db`, thumbnails under `cache_dir`,
    /// the default settings, no scan running and no root watched.
    pub fn new(db: Database, cache_dir: String) -> (state: AppState)
        ensures
            state.db == db,
            state.cache_dir == cache_dir,
            state.settings.root_paths@.len() == 0,
            state.settings.thumbnail_width == 300,
            state.settings.watcher_enabled,
            state.settings.cookie_path@.len() == 0,
            state.settings.duplicates_by_name,
            !state.scan_status.is_scanning,
            state.scan_status.scanned == 0,
            state.scan_status.total == 0,
            state.scan_status.current_folder@.len() == 0,
            state.watchers@.len() == 0,
    {
        AppState {
            db,
            cache_dir,
            settings: AppSettings::default(),
            scan_status: ScanStatus {
                is_scanning: false,
                scanned: 0,
                total: 0,
                current_folder: String::new(),
            },
            watchers: Vec::new(),
        }
    }

    /// Notes that the root `root` is watched, and says whether it was
    /// watched already: a root has one watcher, and a new one takes the
    /// place of the old.
    pub fn watch(&mut self, root: &str) -> (replaced: bool)
        ensures
            replaced == strings_view(old(self).watchers@).contains(root@),
            strings_view(final(self).watchers@) == (if replaced {
                strings_view(old(self).watchers@)
            } else {
                strings_view(old(self).watchers@).push(root@)
            }),
            final(self).db == old(self).db,
            final(self).cache_dir == old(self).cache_dir,
            final(self).settings == old(self).settings,
            final(self).scan_status == old(self).scan_status,
    {
        if holds_text(&self.watchers, root) {
            true
        } else {
            let ghost before = strings_view(self.watchers@);
            self.watchers.push(root.to_owned());
            proof {
                assert(strings_view(self.watchers@) =~= before.push(root@));
            }
            false
        }
    }
}

} // verus!
