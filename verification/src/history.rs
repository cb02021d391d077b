use vstd::prelude::*;

use crate::sync_transport::{byte_views, has_new_heads, has_new_heads_spec};

verus! {

// ---------------------------------------------------------------------------
// The Automerge history of a context
// ---------------------------------------------------------------------------

#[verifier::external_type_specification]
#[verifier::external_body]
pub struct ExAutoCommit(automerge::AutoCommit);

/// Calls `automerge::AutoCommit::load`: the history that the bytes hold, or
/// `None` where the loader refuses them. What the history holds is opaque
/// here and not stated.
#[verifier::external_body]
fn automerge_load(bytes: &[u8]) -> (r: Option<automerge::AutoCommit>) {
    automerge::AutoCommit::load(bytes).ok()
}

/// Calls `automerge::AutoCommit::merge`, which applies to `into` the changes
/// of `other` that `into` lacks; `true` when it succeeded. What the
/// histories hold afterwards is opaque here and not stated.
#[verifier::external_body]
fn automerge_merge(into: &mut automerge::AutoCommit, other: &mut automerge::AutoCommit) -> (ok: bool) {
    into.merge(other).is_ok()
}

/// Calls `automerge::AutoCommit::get_heads` and gives each `ChangeHash` as
/// its bytes: a change hash is a SHA-256 hash, 32 bytes. Which hashes
/// they are depends on the opaque history and is not stated.
#[verifier::external_body]
fn automerge_heads(doc: &mut automerge::AutoCommit) -> (r: Vec<Vec<u8>>)
    ensures
        forall|i: int| 0 <= i < r@.len() ==> (#[trigger] r@[i])@.len() == 32,
{
    doc.get_heads().iter().map(|h| h.0.to_vec()).collect()
}

/// Reads the history of a context from the bytes of its file; `None` where
/// they hold no history.
pub fn load_document(bytes: &[u8]) -> (r: Option<automerge::AutoCommit>) {
    automerge_load(bytes)
}

/// A message of the server merged with our history.
pub struct ServerMerge {
    /// The server's history with ours merged into it.
    pub merged: automerge::AutoCommit,
    /// The heads of our history.
    pub our_heads: Vec<Vec<u8>>,
    /// The heads of the merged history.
    pub merged_heads: Vec<Vec<u8>>,
    /// Whether the merged history has a head that ours has not: the server
    /// had changes we lacked.
    pub news: bool,
}

/// Loads the history that the server sent and merges ours into it, then
/// compares the heads: `None` where the bytes hold no history or the merge
/// fails.
pub fn merge_server_message(ours: &mut automerge::AutoCommit, bytes: &[u8]) -> (r: Option<ServerMerge>)
    ensures
        r matches Some(m) ==> {
            &&& m.news == has_new_heads_spec(byte_views(m.our_heads@), byte_views(m.merged_heads@))
            &&& forall|i: int| 0 <= i < m.our_heads@.len() ==> (#[trigger] m.our_heads@[i])@.len() == 32
            &&& forall|i: int| 0 <= i < m.merged_heads@.len() ==> (#[trigger] m.merged_heads@[i])@.len() == 32
        },
{
    let mut server = match automerge_load(bytes) {
        Some(d) => d,
        None => {
            return None;
        },
    };
    if !automerge_merge(&mut server, ours) {
        return None;
    }
    let our_heads = automerge_heads(ours);
    let merged_heads = automerge_heads(&mut server);
    let news = has_new_heads(&our_heads, &merged_heads);
    Some(ServerMerge { merged: server, our_heads, merged_heads, news })
}

} // verus!
