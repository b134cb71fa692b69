//! Sessions as a server reports them: the state of a session, and one entry
//! of a server's session list.

use vstd::prelude::*;
use vstd::string::*;

verus! {

/// The connection state of a session. Only `Active` counts as connected;
/// every other state is treated alike.
#[derive(Clone, Copy, Debug, PartialEq, Eq, Structural)]
pub enum SessionState {
    /// A user is signed in and connected.
    Active,
    /// The station is connected to the client.
    Connected,
    /// The station is in the process of connecting.
    ConnectQuery,
    /// The station shadows another one.
    Shadow,
    /// A user is signed in, but the client is not connected.
    Disconnected,
    /// The station waits for a client.
    Idle,
    /// The station listens for connections.
    Listen,
    /// The station is being reset.
    Reset,
    /// The station is down.
    Down,
    /// The station is initializing.
    Init,
}

impl SessionState {
    /// Whether the state counts as connected.
    pub open spec fn active(self) -> bool {
        self is Active
    }

    /// Whether the state counts as connected.
    pub fn is_active(&self) -> (r: bool)
        ensures
            r == self.active(),
    {
        match self {
            SessionState::Active => true,
            _ => false,
        }
    }
}

/// The identity of a client on one server: the client's name alone, or the
/// client's name, a slash and the user's name where a user is signed in.
pub open spec fn identity_of(client: Seq<char>, user: Seq<char>) -> Seq<char> {
    if user.len() == 0 {
        client
    } else {
        client + seq!['/'] + user
    }
}

/// What one entry of a session list says: who, signed in as whom, in which
/// state.
pub struct Observation {
    pub identity: Seq<char>,
    pub user: Seq<char>,
    pub state: SessionState,
}

/// One entry of a server's session list.
#[derive(Clone, Debug)]
pub struct SessionInfo {
    /// The client's name.
    pub client: String,
    /// The user's name; empty where nobody is signed in.
    pub user: String,
    /// The session's state.
    pub state: SessionState,
}

impl View for SessionInfo {
    type V = Observation;

    open spec fn view(&self) -> Observation {
        Observation {
            identity: identity_of(self.client@, self.user@),
            user: self.user@,
            state: self.state,
        }
    }
}

impl SessionInfo {
    pub fn new(client: &str, user: &str, state: SessionState) -> (info: SessionInfo)
        ensures
            info.client@ == client@,
            info.user@ == user@,
            info.state == state,
    {
        SessionInfo { client: client.to_owned(), user: user.to_owned(), state }
    }

    /// The identity under which the client is tracked.
    pub fn identity(&self) -> (id: String)
        ensures
            id@ == self@.identity,
    {
        let mut id = self.client.clone();
        if !self.user.as_str().is_empty() {
            id.append("/");
            id.append(self.user.as_str());
            proof {
                reveal_strlit("/");
                assert("/"@ =~= seq!['/']);
            }
        }
        id
    }
}

/// The observations that a session list holds, in its order.
pub open spec fn observations(list: Seq<SessionInfo>) -> Seq<Observation> {
    list.map_values(|info: SessionInfo| info@)
}

} // verus!
