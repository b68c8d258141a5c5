//! The settings page about torrents.

use vstd::prelude::*;

verus! {

/// Whether finished torrents are seeded, by what the configuration holds under
/// [`crate::torrent_session::SEEDING_KEY`]: they are, unless it says otherwise.
pub fn seeding(configured: Option<bool>) -> (enabled: bool)
    ensures
        enabled == (configured != Some(false)),
{
    match configured {
        Some(enabled) => enabled,
        None => true,
    }
}

} // verus!
