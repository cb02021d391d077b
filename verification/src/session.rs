use vstd::prelude::*;

use crate::config::KeyCode;
use crate::model::InputMode;

verus! {

/// How long the main loop waits for a key, in milliseconds: briefly while a
/// focus timer runs, a little longer while there is something to write or
/// sync, else a minute.
pub fn poll_timeout_ms(mode: InputMode, dirty: bool, sync_changed: bool, has_sync: bool) -> (r: u64)
    ensures
        r == (if mode == InputMode::Focused {
            250u64
        } else if dirty || sync_changed || has_sync {
            500u64
        } else {
            60000u64
        }),
{
    if mode == InputMode::Focused {
        250
    } else if dirty || sync_changed || has_sync {
        500
    } else {
        60000
    }
}

/// What the main loop does with a key before the key bindings see it.
pub enum HelpStep {
    /// `?` in normal mode shows or hides the help.
    Toggle,
    /// Any other key closes the help while it is shown.
    Close,
    /// The key goes to the bindings.
    Pass,
}

pub fn help_step(code: KeyCode, mode: InputMode, show_help: bool) -> (r: HelpStep)
    ensures
        r == (if code == KeyCode::Char('?') && mode == InputMode::Normal {
            HelpStep::Toggle
        } else if show_help {
            HelpStep::Close
        } else {
            HelpStep::Pass
        }),
{
    if code == KeyCode::Char('?') && mode == InputMode::Normal {
        HelpStep::Toggle
    } else if show_help {
        HelpStep::Close
    } else {
        HelpStep::Pass
    }
}

/// A field typed at the login prompt: the line trimmed, `None` if nothing
/// is left.
pub fn login_field(line: &str) -> (r: Option<String>)
    ensures
        match r {
            Some(s) => s@ == crate::text::trim(line@) && s@.len() > 0,
            None => crate::text::trim(line@).len() == 0,
        },
{
    let t = crate::text::trim_chars(&crate::text::chars_of(line));
    if t.len() == 0 {
        None
    } else {
        Some(crate::text::string_of(t.as_slice()))
    }
}

/// The address that asks the server to send a login link.
pub fn login_url(server: &str) -> (r: String)
    ensures
        r@ == server@ + "/auth/login"@,
{
    let mut v = crate::text::chars_of(server);
    let tail = "/auth/login";
    crate::text::push_str(&mut v, tail);
    crate::text::string_of(v.as_slice())
}

/// The address that asks the server whether a login was confirmed.
pub fn poll_url(server: &str, poll_id: &str) -> (r: String)
    ensures
        r@ == server@ + "/auth/poll?poll_id="@ + poll_id@,
{
    let mut v = crate::text::chars_of(server);
    let mid = "/auth/poll?poll_id=";
    crate::text::push_str(&mut v, mid);
    crate::text::push_str(&mut v, poll_id);
    crate::text::string_of(v.as_slice())
}

/// What a poll of the login status asks for next.
pub enum LoginStep {
    /// The login was confirmed; the token to keep.
    Verified(String),
    /// The link expired.
    Expired,
    /// Confirmed, but the reply holds no token.
    MissingToken,
    /// Not confirmed yet; poll again.
    Pending,
}

/// Decides on a poll's reply, given its `status` and `token` fields.
pub fn login_step(status: Option<&str>, token: Option<&str>) -> (r: LoginStep)
    ensures
        match status {
            Some(s) => if s@ == "verified"@ {
                match token {
                    Some(t) => r matches LoginStep::Verified(x) && x@ == t@,
                    None => r is MissingToken,
                }
            } else if s@ == "expired"@ {
                r is Expired
            } else {
                r is Pending
            },
            None => r is Pending,
        },
{
    let verified = "verified";
    let expired = "expired";
    match status {
        Some(s) => {
            if crate::text::str_eq(s, verified) {
                match token {
                    Some(t) => LoginStep::Verified(t.to_owned()),
                    None => LoginStep::MissingToken,
                }
            } else if crate::text::str_eq(s, expired) {
                LoginStep::Expired
            } else {
                LoginStep::Pending
            }
        },
        None => LoginStep::Pending,
    }
}

} // verus!
