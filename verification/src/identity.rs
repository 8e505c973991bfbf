//! Sign-in state and the account's destructive actions, as decisions: the status starts
//! loading (never a "Sign in" flash before the session check answers), a session is adopted
//! only when the server verifies it, a session whose token cannot be refreshed is gone, and
//! each account action drives one status banner.

use vstd::prelude::*;

use crate::catalog::prefs::PREFS_KEY;
use crate::text::{append, chars_of, decimal, decimal_of_u64, lit, string_of, trim, trimmed};

verus! {

/// Who the reader is, as far as the client knows.
#[derive(Debug, Clone, PartialEq, Eq)]
pub enum AuthStatus<M> {
    Loading,
    Anonymous,
    Authed(M),
}

/// How often a signed-in session checks its token.
pub const REFRESH_INTERVAL_MS: u32 = 30000;

/// A token with less than this many seconds left is refreshed.
pub const MIN_VALIDITY_S: u32 = 60;

/// The session check answered: adopted when the server verified the caller (`me`), anonymous
/// on any failure along the way (no configuration, no session, an unverified token).
pub fn on_session<M>(me: Option<M>) -> (s: AuthStatus<M>)
    ensures
        match me {
            Some(m) => s == AuthStatus::<M>::Authed(m),
            None => s == AuthStatus::<M>::Anonymous,
        },
{
    match me {
        Some(m) => AuthStatus::Authed(m),
        None => AuthStatus::Anonymous,
    }
}

/// A refresh tick: only a signed-in session keeps refreshing.
pub fn keeps_refreshing<M>(status: &AuthStatus<M>) -> (b: bool)
    ensures
        b == (*status is Authed),
{
    match status {
        AuthStatus::Authed(_) => true,
        _ => false,
    }
}

/// A refresh answered: a failed refresh means the session is gone (anonymous, stop); a
/// successful one keeps the session and the loop.
pub fn on_refreshed<M>(status: AuthStatus<M>, refreshed: bool) -> (r: (AuthStatus<M>, bool))
    ensures
        refreshed ==> r.0 == status && r.1,
        !refreshed ==> r.0 == AuthStatus::<M>::Anonymous && !r.1,
{
    if refreshed {
        (status, true)
    } else {
        (AuthStatus::Anonymous, false)
    }
}

/// One account action's banner.
#[derive(Debug, Clone, PartialEq, Eq)]
pub enum ActionStatus {
    Idle,
    Busy(String),
    Done(String),
    Error(String),
}

/// The browser-side state that is "my data" (reading preferences; the theme belongs to the
/// device, not to the account).
pub fn local_keys() -> (keys: Vec<&'static str>)
    ensures
        keys@.len() == 1,
        keys@[0]@ == PREFS_KEY@,
{
    vec![PREFS_KEY]
}

/// The banner after erasing submissions: `Deleted <n> submission(s).`
pub fn erased_message(deleted: u64) -> (m: String)
    ensures
        m@ == "Deleted "@ + decimal(deleted as nat) + " submission(s)."@,
{
    let mut out = lit("Deleted ");
    append(&mut out, &decimal_of_u64(deleted));
    append(&mut out, &lit(" submission(s)."));
    string_of(&out)
}

/// The banner while an action runs.
pub fn busy(action: Action) -> (s: ActionStatus)
    ensures
        s matches ActionStatus::Busy(m) && m@ == match action {
            Action::EraseSubmissions => "Erasing your submissions…"@,
            Action::EraseAll => "Erasing your data…"@,
            Action::DeleteAccount => "Deleting your account…"@,
        },
{
    let m = match action {
        Action::EraseSubmissions => lit("Erasing your submissions…"),
        Action::EraseAll => lit("Erasing your data…"),
        Action::DeleteAccount => lit("Deleting your account…"),
    };
    ActionStatus::Busy(string_of(&m))
}

/// The account's destructive actions.
#[derive(Debug, Clone, Copy, PartialEq, Eq, Structural)]
pub enum Action {
    EraseSubmissions,
    EraseAll,
    DeleteAccount,
}


/// A grant of the submission allowlist as it is sent: the username as typed, and the note
/// only when it is not blank. A blank username is refused with the banner's message.
pub fn grant_request(username: &str, note: &str) -> (r: Result<(String, Option<String>), String>)
    ensures
        trim(username@).len() == 0 <==> r is Err,
        r matches Err(m) ==> m@ == "A grant needs a username"@,
        r matches Ok((u, n)) ==> u@ == username@ && match n {
            Some(t) => trim(note@).len() > 0 && t@ == note@,
            None => trim(note@).len() == 0,
        },
{
    if trimmed(&chars_of(username)).len() == 0 {
        return Err(string_of(&lit("A grant needs a username")));
    }
    let kept = if trimmed(&chars_of(note)).len() == 0 {
        None
    } else {
        Some(string_of(&chars_of(note)))
    };
    Ok((string_of(&chars_of(username)), kept))
}

/// `<before>'<name>'<after>`.
fn quoted(before: &str, name: &str, after: &str) -> (m: String)
    ensures
        m@ == before@ + "'"@ + name@ + "'"@ + after@,
{
    let mut out = lit(before);
    append(&mut out, &lit("'"));
    append(&mut out, &chars_of(name));
    append(&mut out, &lit("'"));
    append(&mut out, &lit(after));
    string_of(&out)
}

/// The banner while a grant is sent.
pub fn granting() -> (s: ActionStatus)
    ensures
        s matches ActionStatus::Busy(m) && m@ == "Granting…"@,
{
    ActionStatus::Busy(string_of(&lit("Granting…")))
}

/// The banner once `username` is granted.
pub fn granted(username: &str) -> (s: ActionStatus)
    ensures
        s matches ActionStatus::Done(m) && m@ == "Granted '"@ + username@ + "'."@,
{
    let m = quoted("Granted ", username, ".");
    proof {
        reveal_strlit("Granted ");
        reveal_strlit("'");
        reveal_strlit(".");
        reveal_strlit("Granted '");
        reveal_strlit("'.");
        assert("Granted "@ + "'"@ =~= "Granted '"@);
        assert("'"@ + "."@ =~= "'."@);
        assert(m@ =~= "Granted '"@ + username@ + "'."@);
    }
    ActionStatus::Done(m)
}

/// The banner while `username`'s grant is revoked.
pub fn revoking(username: &str) -> (s: ActionStatus)
    ensures
        s matches ActionStatus::Busy(m) && m@ == "Revoking '"@ + username@ + "'…"@,
{
    let m = quoted("Revoking ", username, "…");
    proof {
        reveal_strlit("Revoking ");
        reveal_strlit("'");
        reveal_strlit("…");
        reveal_strlit("Revoking '");
        reveal_strlit("'…");
        assert("Revoking "@ + "'"@ =~= "Revoking '"@);
        assert("'"@ + "…"@ =~= "'…"@);
        assert(m@ =~= "Revoking '"@ + username@ + "'…"@);
    }
    ActionStatus::Busy(m)
}

/// The banner once `username`'s grant is revoked.
pub fn revoked(username: &str) -> (s: ActionStatus)
    ensures
        s matches ActionStatus::Done(m) && m@ == "Revoked '"@ + username@ + "'."@,
{
    let m = quoted("Revoked ", username, ".");
    proof {
        reveal_strlit("Revoked ");
        reveal_strlit("'");
        reveal_strlit(".");
        reveal_strlit("Revoked '");
        reveal_strlit("'.");
        assert("Revoked "@ + "'"@ =~= "Revoked '"@);
        assert("'"@ + "."@ =~= "'."@);
        assert(m@ =~= "Revoked '"@ + username@ + "'."@);
    }
    ActionStatus::Done(m)
}

} // verus!
