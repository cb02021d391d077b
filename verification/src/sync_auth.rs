use vstd::prelude::*;

verus! {

/// The sync server, and what the user logged in to it with.
pub struct SyncConfig {
    pub server_url: String,
    pub token: String,
    pub email: String,
}

} // verus!
