use vstd::prelude::*;

use crate::text::{chars_of, has_prefix, piece_len, push_all, push_str, split_on, split_chars, string_of, views};

verus! {

/// What the application asks of the connection to the sync server.
pub enum SyncCommand {
    SendMessage(Vec<u8>),
    Shutdown,
}

/// What the connection to the sync server reports.
pub enum SyncEvent {
    MessageReceived(Vec<u8>),
    Connected,
    Disconnected,
}

/// The WebSocket URL of a server URL: `https://` becomes `wss://`, `http://`
/// becomes `ws://`, anything else is kept.
pub open spec fn ws_url_spec(url: Seq<char>) -> Seq<char> {
    if has_prefix(url, "https://"@) {
        "wss://"@ + url.skip(8)
    } else if has_prefix(url, "http://"@) {
        "ws://"@ + url.skip(7)
    } else {
        url
    }
}

/// The WebSocket URL of a server URL.
pub fn to_ws_url(server_url: &str) -> (r: String)
    ensures
        r@ == ws_url_spec(server_url@),
{
    let v = chars_of(server_url);
    let https = chars_of("https://");
    let http = chars_of("http://");
    proof {
        reveal_strlit("https://");
        reveal_strlit("http://");
    }
    if crate::text::starts_with(&v, &https) {
        let mut out = chars_of("wss://");
        let rest = crate::text::sub_chars(&v, 8, v.len());
        assert(rest@ == v@.skip(8));
        push_all(&mut out, &rest);
        string_of(out.as_slice())
    } else if crate::text::starts_with(&v, &http) {
        let mut out = chars_of("ws://");
        let rest = crate::text::sub_chars(&v, 7, v.len());
        assert(rest@ == v@.skip(7));
        push_all(&mut out, &rest);
        string_of(out.as_slice())
    } else {
        string_of(v.as_slice())
    }
}

/// The URL of the sync endpoint of a context.
pub open spec fn sync_url_spec(ws_base: Seq<char>, context_id: Seq<char>) -> Seq<char> {
    ws_base + "/sync/"@ + context_id
}

/// The URL of the sync endpoint of a context, under a WebSocket base URL.
pub fn sync_url(ws_base: &str, context_id: &str) -> (r: String)
    ensures
        r@ == sync_url_spec(ws_base@, context_id@),
{
    let mut out = chars_of(ws_base);
    push_str(&mut out, "/sync/");
    push_str(&mut out, context_id);
    string_of(out.as_slice())
}

/// The value of the `Authorization` header for a token.
pub fn bearer_header(token: &str) -> (r: String)
    ensures
        r@ == "Bearer "@ + token@,
{
    let mut out = chars_of("Bearer ");
    push_str(&mut out, token);
    string_of(out.as_slice())
}

/// The host part of a URL: what follows the first `://` up to the next `/`,
/// or nothing when there is no `://`.
pub open spec fn url_host_spec(url: Seq<char>) -> Seq<char> {
    match after_scheme(url) {
        Some(rest) => split_on(rest, '/')[0],
        None => seq![],
    }
}

/// What follows the first `://` of `url` up to the next `://`, if any.
pub open spec fn after_scheme(url: Seq<char>) -> Option<Seq<char>> {
    let n = scheme_end(url);
    if n < 0 {
        None
    } else {
        let rest = url.skip(n + 3);
        let m = scheme_end(rest);
        Some(if m < 0 { rest } else { rest.take(m) })
    }
}

/// The index of the first `://` in `s`, or -1.
pub open spec fn scheme_end(s: Seq<char>) -> int
    decreases s.len(),
{
    if s.len() < 3 {
        -1
    } else if s[0] == ':' && s[1] == '/' && s[2] == '/' {
        0
    } else {
        let r = scheme_end(s.drop_first());
        if r < 0 { -1 } else { r + 1 }
    }
}

proof fn lemma_scheme_end(s: Seq<char>)
    ensures
        -1 <= scheme_end(s) <= s.len() - 3 || scheme_end(s) == -1,
        scheme_end(s) >= 0 ==> s[scheme_end(s)] == ':' && s[scheme_end(s) + 1] == '/' && s[scheme_end(s) + 2] == '/',
        forall|i: int| 0 <= i < (if scheme_end(s) < 0 { s.len() - 2 } else { scheme_end(s) }) ==> !(#[trigger] s[i] == ':' && s[i + 1] == '/' && s[i + 2] == '/'),
    decreases s.len(),
{
    if s.len() >= 3 && !(s[0] == ':' && s[1] == '/' && s[2] == '/') {
        lemma_scheme_end(s.drop_first());
        let d = s.drop_first();
        assert forall|i: int| 0 <= i < (if scheme_end(s) < 0 { s.len() - 2 } else { scheme_end(s) }) implies !(#[trigger] s[i] == ':' && s[i + 1] == '/' && s[i + 2] == '/') by {
            if i > 0 {
                assert(s[i] == d[i - 1] && s[i + 1] == d[i] && s[i + 2] == d[i + 1]);
            }
        }
        if scheme_end(s) >= 0 {
            assert(s[scheme_end(s)] == d[scheme_end(d)]);
            assert(s[scheme_end(s) + 1] == d[scheme_end(d) + 1]);
            assert(s[scheme_end(s) + 2] == d[scheme_end(d) + 2]);
        }
    }
}

fn find_scheme(v: &Vec<char>) -> (r: Option<usize>)
    ensures
        match r {
            Some(n) => n as int == scheme_end(v@),
            None => scheme_end(v@) < 0,
        },
{
    proof {
        lemma_scheme_end(v@);
    }
    let mut i: usize = 0;
    while i < v.len() && v.len() - i >= 3
        invariant
            i <= v.len(),
            forall|j: int| 0 <= j < i ==> !(#[trigger] v@[j] == ':' && v@[j + 1] == '/' && v@[j + 2] == '/'),
        decreases v.len() - i,
    {
        if v[i] == ':' && v[i + 1] == '/' && v[i + 2] == '/' {
            proof {
                lemma_scheme_end_at(v@, i as int);
            }
            return Some(i);
        }
        i = i + 1;
    }
    proof {
        if scheme_end(v@) >= 0 {
            let n = scheme_end(v@);
            assert(!(v@[n] == ':' && v@[n + 1] == '/' && v@[n + 2] == '/'));
        }
    }
    None
}

proof fn lemma_scheme_end_at(s: Seq<char>, i: int)
    requires
        0 <= i <= s.len() - 3,
        s[i] == ':' && s[i + 1] == '/' && s[i + 2] == '/',
        forall|j: int| 0 <= j < i ==> !(#[trigger] s[j] == ':' && s[j + 1] == '/' && s[j + 2] == '/'),
    ensures
        scheme_end(s) == i,
    decreases i,
{
    if i > 0 {
        let d = s.drop_first();
        assert(!(s[0] == ':' && s[1] == '/' && s[2] == '/'));
        assert forall|j: int| 0 <= j < i - 1 implies !(#[trigger] d[j] == ':' && d[j + 1] == '/' && d[j + 2] == '/') by {
            assert(d[j] == s[j + 1] && d[j + 1] == s[j + 2] && d[j + 2] == s[j + 3]);
        }
        assert(d[i - 1] == s[i] && d[i] == s[i + 1] && d[i + 1] == s[i + 2]);
        lemma_scheme_end_at(d, i - 1);
    }
}

/// The host part of a URL, such as `localhost:8787` in
/// `ws://localhost:8787/sync/default`.
pub fn url_host(url: &str) -> (r: String)
    ensures
        r@ == url_host_spec(url@),
{
    let v = chars_of(url);
    proof {
        lemma_scheme_end(v@);
    }
    match find_scheme(&v) {
        None => String::new(),
        Some(n) => {
            let rest = crate::text::sub_chars(&v, n + 3, v.len());
            assert(rest@ == v@.skip(n + 3));
            proof {
                lemma_scheme_end(rest@);
            }
            let piece = match find_scheme(&rest) {
                Some(m) => crate::text::sub_chars(&rest, 0, m),
                None => rest,
            };
            proof {
                if scheme_end(rest@) >= 0 {
                    assert(piece@ == rest@.take(scheme_end(rest@)));
                }
            }
            let parts = split_chars(&piece, '/');
            assert(views(parts@)[0] == parts@[0]@);
            string_of(parts[0].as_slice())
        },
    }
}

/// How long to wait before trying to connect again, after waiting
/// `backoff_secs`: twice as long, at most a minute.
pub fn next_backoff(backoff_secs: u64) -> (r: u64)
    ensures
        r == (if backoff_secs >= 30 { 60 } else { backoff_secs * 2 }),
{
    if backoff_secs >= 30 {
        60
    } else {
        backoff_secs * 2
    }
}

} // verus!

verus! {

/// What arrives from the server during a session.
pub enum Frame {
    Binary(Vec<u8>),
    Close,
    Error,
    /// The stream ended.
    End,
    /// Text, ping and other frames.
    Other,
}

/// What a session does next.
pub enum SessionStep {
    /// Hand the bytes to the application and go on.
    Deliver(Vec<u8>),
    /// Write the bytes to the server and go on.
    Send(Vec<u8>),
    /// Close the connection and end the session for good.
    CloseAndStop,
    /// End the session, for good (`true`) or to reconnect (`false`).
    End(bool),
    /// Go on.
    Continue,
}

/// What a session does with a frame from the server: binary frames go to
/// the application; a close, an error or the end of the stream end the
/// session, to reconnect.
pub fn frame_step(frame: Frame) -> (r: SessionStep)
    ensures
        match frame {
            Frame::Binary(b) => r matches SessionStep::Deliver(x) && x@ == b@,
            Frame::Close | Frame::Error | Frame::End => r matches SessionStep::End(s) && !s,
            Frame::Other => r is Continue,
        },
{
    match frame {
        Frame::Binary(b) => SessionStep::Deliver(b),
        Frame::Close | Frame::Error | Frame::End => SessionStep::End(false),
        Frame::Other => SessionStep::Continue,
    }
}

/// What a session does with a command of the application, `None` when the
/// application has gone: messages are sent; a shutdown closes the
/// connection and ends for good, and so does the application going.
pub fn command_step(cmd: Option<SyncCommand>) -> (r: SessionStep)
    ensures
        match cmd {
            Some(SyncCommand::SendMessage(b)) => r matches SessionStep::Send(x) && x@ == b@,
            Some(SyncCommand::Shutdown) => r is CloseAndStop,
            None => r matches SessionStep::End(s) && s,
        },
{
    match cmd {
        Some(SyncCommand::SendMessage(b)) => SessionStep::Send(b),
        Some(SyncCommand::Shutdown) => SessionStep::CloseAndStop,
        None => SessionStep::End(true),
    }
}

} // verus!

verus! {

// ---------------------------------------------------------------------------
// Taking in what the server sent
// ---------------------------------------------------------------------------

pub open spec fn byte_views(v: Seq<Vec<u8>>) -> Seq<Seq<u8>> {
    v.map_values(|b: Vec<u8>| b@)
}

/// Some head of the merged document is none of ours: the server had
/// changes that we did not have.
pub open spec fn has_new_heads_spec(ours: Seq<Seq<u8>>, merged: Seq<Seq<u8>>) -> bool {
    exists|j: int| 0 <= j < merged.len() && !ours.contains(#[trigger] merged[j])
}

fn bytes_equal(a: &Vec<u8>, b: &Vec<u8>) -> (r: bool)
    ensures
        r == (a@ == b@),
{
    if a.len() != b.len() {
        return false;
    }
    let mut i: usize = 0;
    while i < a.len()
        invariant
            i <= a.len(),
            a.len() == b.len(),
            forall|k: int| 0 <= k < i ==> a@[k] == b@[k],
        decreases a.len() - i,
    {
        if a[i] != b[i] {
            return false;
        }
        i = i + 1;
    }
    assert(a@ =~= b@);
    true
}

fn holds_head(ours: &Vec<Vec<u8>>, h: &Vec<u8>) -> (r: bool)
    ensures
        r == byte_views(ours@).contains(h@),
{
    let mut i: usize = 0;
    while i < ours.len()
        invariant
            i <= ours.len(),
            forall|k: int| 0 <= k < i ==> ours@[k]@ != h@,
        decreases ours.len() - i,
    {
        if bytes_equal(&ours[i], h) {
            assert(byte_views(ours@)[i as int] == h@);
            return true;
        }
        i = i + 1;
    }
    proof {
        if byte_views(ours@).contains(h@) {
            let k = choose|k: int| 0 <= k < byte_views(ours@).len() && byte_views(ours@)[k] == h@;
            assert(ours@[k]@ == h@);
        }
    }
    false
}

/// Whether the document merged with what the server sent has a head that
/// ours has not, that is, whether the server had changes we lacked.
pub fn has_new_heads(ours: &Vec<Vec<u8>>, merged: &Vec<Vec<u8>>) -> (r: bool)
    ensures
        r == has_new_heads_spec(byte_views(ours@), byte_views(merged@)),
{
    let mut j: usize = 0;
    while j < merged.len()
        invariant
            j <= merged.len(),
            forall|k: int| 0 <= k < j ==> byte_views(ours@).contains(#[trigger] byte_views(merged@)[k]),
        decreases merged.len() - j,
    {
        if !holds_head(ours, &merged[j]) {
            assert(!byte_views(ours@).contains(byte_views(merged@)[j as int]));
            return true;
        }
        j = j + 1;
    }
    false
}

/// What to do with a message from the server once it is merged with our
/// document: take the merged document exactly when it brought changes and
/// it could be read; before the first such change of a context, back the
/// files up. The result is (take it, back up first).
pub fn merge_step(news: bool, readable: bool, backed_up: bool) -> (r: (bool, bool))
    ensures
        r.0 == (news && readable),
        r.1 == (news && readable && !backed_up),
{
    let take = news && readable;
    (take, take && !backed_up)
}

} // verus!
