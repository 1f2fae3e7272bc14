//! Relay-side session admission: at most one authority at a time, behind a
//! shared secret.

use vstd::prelude::*;

verus! {

/// Phase of the single authority session. `Pending` only occurs transiently
/// inside a login attempt, while the secret is being checked.
#[derive(Clone, Copy, PartialEq, Eq, Structural, Debug)]
pub enum SessionState {
    Idle,
    Pending,
    Active,
}

/// Why a login attempt was turned away.
#[derive(Clone, Copy, PartialEq, Eq, Structural, Debug)]
pub enum RejectReason {
    InvalidSecret,
    AlreadyConnected,
}

/// Answer to a login attempt. `Accept` carries the configured server display
/// name, which the transport must send as the first message over the new
/// connection.
#[derive(Debug)]
pub enum LoginResult {
    Accept(String),
    Reject(RejectReason),
}

/// Spec-level summary of a login answer.
pub enum LoginOutcome {
    Accepted,
    TurnedAway(RejectReason),
}

/// Spec-level image of a [`SessionManager`].
#[verifier::ext_equal]
pub struct SessionManagerView {
    pub secret: Seq<char>,
    pub server_name: Seq<char>,
    pub state: SessionState,
}

/// Admits or evicts the single authority connection.
pub struct SessionManager {
    secret: String,
    server_name: String,
    state: SessionState,
}

/// What one login attempt does: the manager afterwards, and the answer.
/// A wrong secret or an already active session leaves the manager unchanged.
pub open spec fn login_next(v: SessionManagerView, secret: Seq<char>) -> (
    SessionManagerView,
    LoginOutcome,
) {
    if secret != v.secret {
        (v, LoginOutcome::TurnedAway(RejectReason::InvalidSecret))
    } else if v.state is Active {
        (v, LoginOutcome::TurnedAway(RejectReason::AlreadyConnected))
    } else {
        (
            SessionManagerView { state: SessionState::Active, ..v },
            LoginOutcome::Accepted,
        )
    }
}

/// The manager left by folding a whole sequence of login attempts.
pub open spec fn login_run(v: SessionManagerView, attempts: Seq<Seq<char>>) -> SessionManagerView
    decreases attempts.len(),
{
    if attempts.len() == 0 {
        v
    } else {
        login_run(login_next(v, attempts[0]).0, attempts.drop_first())
    }
}

impl View for SessionManager {
    type V = SessionManagerView;

    closed spec fn view(&self) -> SessionManagerView {
        SessionManagerView {
            secret: self.secret@,
            server_name: self.server_name@,
            state: self.state,
        }
    }
}

impl SessionManager {
    /// A fresh manager: configured secret and display name, nobody connected.
    pub fn new(secret: String, server_name: String) -> (m: Self)
        ensures
            m@ == (SessionManagerView {
                secret: secret@,
                server_name: server_name@,
                state: SessionState::Idle,
            }),
    {
        SessionManager { secret, server_name, state: SessionState::Idle }
    }

    /// The phase the session is in.
    pub fn state(&self) -> (s: SessionState)
        ensures
            s == self@.state,
    {
        self.state
    }

    /// One login attempt. Checks the secret, then that no authority is
    /// already active; only then does the session become `Active`, and the
    /// answer carries the server display name to send first.
    pub fn login(&mut self, secret: &String) -> (r: LoginResult)
        ensures
            final(self)@ == login_next(old(self)@, secret@).0,
            match r {
                LoginResult::Accept(name) => {
                    &&& login_next(old(self)@, secret@).1 is Accepted
                    &&& name@ == old(self)@.server_name
                },
                LoginResult::Reject(reason) => login_next(old(self)@, secret@).1
                    == LoginOutcome::TurnedAway(reason),
            },
    {
        let secret_ok = self.secret == *secret;
        if self.state == SessionState::Active {
            if !secret_ok {
                return LoginResult::Reject(RejectReason::InvalidSecret);
            }
            return LoginResult::Reject(RejectReason::AlreadyConnected);
        }
        let prev = self.state;
        self.state = SessionState::Pending;
        if !secret_ok {
            self.state = prev;
            return LoginResult::Reject(RejectReason::InvalidSecret);
        }
        self.state = SessionState::Active;
        LoginResult::Accept(self.server_name.clone())
    }

    /// Explicit logout. Marks the session disconnected; safe to call
    /// redundantly.
    pub fn logout(&mut self)
        ensures
            final(self)@ == (SessionManagerView { state: SessionState::Idle, ..old(self)@ }),
    {
        self.state = SessionState::Idle;
    }

    /// The transport saw a close frame: same transition as a logout.
    pub fn on_transport_close(&mut self)
        ensures
            final(self)@ == (SessionManagerView { state: SessionState::Idle, ..old(self)@ }),
    {
        self.logout();
    }

    /// The transport failed: same transition as a logout.
    pub fn on_transport_error(&mut self)
        ensures
            final(self)@ == (SessionManagerView { state: SessionState::Idle, ..old(self)@ }),
    {
        self.logout();
    }
}

/// At most one authority: while a session is active, any further login
/// attempt is turned away — with `AlreadyConnected` when the secret is right
/// — and the active session is not altered.
pub proof fn lemma_at_most_one_authority(v: SessionManagerView, secret: Seq<char>)
    requires
        v.state is Active,
    ensures
        login_next(v, secret).0 == v,
        !(login_next(v, secret).1 is Accepted),
        secret == v.secret ==> login_next(v, secret).1 == LoginOutcome::TurnedAway(
            RejectReason::AlreadyConnected,
        ),
{
}

/// At most one authority, over any sequence of attempts: however many logins
/// are tried against an active session, it stays exactly as it is.
pub proof fn lemma_active_session_is_stable(v: SessionManagerView, attempts: Seq<Seq<char>>)
    requires
        v.state is Active,
    ensures
        login_run(v, attempts) == v,
    decreases attempts.len(),
{
    if attempts.len() > 0 {
        lemma_at_most_one_authority(v, attempts[0]);
        lemma_active_session_is_stable(v, attempts.drop_first());
    }
}

} // verus!
