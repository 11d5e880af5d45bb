//! The settings of the search daemon, and their defaults.
use vstd::prelude::*;

verus! {

/// The settings of the search daemon.
#[derive(Debug, Clone, Copy)]
pub struct Config {
    pub offline: bool,
    pub stable: bool,
    pub per_page_web: u32,
    pub daemon: bool,
    pub daemon_port: u16,
    pub hide_docs_info_message: bool,
    pub sort: bool,
}

impl Config {
    /// The settings when none are given.
    pub fn default() -> (r: Self)
        ensures
            r.offline,
            r.stable,
            r.per_page_web == 25,
            r.daemon,
            r.daemon_port == 54219,
            !r.hide_docs_info_message,
            !r.sort,
    {
        Self {
            offline: true,
            stable: true,
            per_page_web: 25,
            daemon: true,
            daemon_port: 54219,
            hide_docs_info_message: false,
            sort: false,
        }
    }
}

/// The default of a flag that is on unless turned off.
pub fn true_default() -> (r: bool)
    ensures
        r,
{
    true
}

/// The default number of search results per page.
pub fn per_page_web_default() -> (r: u32)
    ensures
        r == 25,
{
    25
}

/// The default port of the search daemon.
pub fn daemon_port_default() -> (r: u16)
    ensures
        r == 54219,
{
    54219
}

} // verus!
