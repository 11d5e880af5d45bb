//! The settings the editor passes to the server, and their defaults.
use vstd::prelude::*;
use crate::info_api::ViewMode;

verus! {

/// The server's settings.
#[derive(Debug, Clone, Copy)]
pub struct Config {
    /// Search results per page.
    pub per_page: usize,
    /// Which entries a feature list shows: all, unused optional
    /// dependencies, or features only.
    pub feature_display_mode: ViewMode,
    pub hide_docs_info_message: bool,
    pub sort_format: bool,
    pub offline: bool,
    pub stable_version: bool,
}

impl Config {
    /// The settings when the editor passes none.
    pub fn default() -> (r: Self)
        ensures
            r.per_page == 25,
            r.feature_display_mode == ViewMode::UnusedOpt,
            !r.hide_docs_info_message,
            !r.sort_format,
            r.stable_version,
            !r.offline,
    {
        Self {
            per_page: default_per_page(),
            feature_display_mode: default_feature_display_mode(),
            hide_docs_info_message: false,
            sort_format: false,
            stable_version: true,
            offline: default_offline(),
        }
    }
}

/// The settings, grouped by topic.
#[derive(Debug, Clone, Copy)]
pub struct ConfigV2 {
    pub online: OnlineConfig,
    pub offline: OfflineConfig,
    pub display: DisplayConfig,
    pub general: GeneralConfig,
}

#[derive(Debug, Clone, Copy)]
pub struct GeneralConfig {
    pub stable_version: bool,
    pub sort_format: bool,
}

#[derive(Debug, Clone, Copy)]
pub struct OnlineConfig {
    pub per_page: usize,
}

#[derive(Debug, Clone, Copy)]
pub struct OfflineConfig {
    pub offline: bool,
}

#[derive(Debug, Clone, Copy)]
pub struct DisplayConfig {
    /// All, UnusedOpt, Features,
    pub feature_display_mode: ViewMode,
    pub hide_docs_info_message: bool,
}

/// The default of a flag that is on unless turned off.
pub fn default_true() -> (r: bool)
    ensures
        r,
{
    true
}

/// The default of offline mode: off, the crates are looked up online.
pub fn default_offline() -> (r: bool)
    ensures
        !r,
{
    false
}

/// The default number of search results per page.
pub fn default_per_page() -> (r: usize)
    ensures
        r == 25,
{
    25
}

/// The default feature list: features and unused optional dependencies.
pub fn default_feature_display_mode() -> (r: ViewMode)
    ensures
        r == ViewMode::UnusedOpt,
{
    ViewMode::UnusedOpt
}

} // verus!
