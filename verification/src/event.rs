//! Transitions of a client between connected and not connected, and the
//! message that announces one.

use vstd::prelude::*;
use vstd::string::*;

verus! {

/// The direction of a transition.
#[derive(Clone, Copy, Debug, PartialEq, Eq, Structural)]
pub enum TransitionKind {
    /// The client was not connected and now is.
    Activated,
    /// The client was connected and no longer is.
    Deactivated,
}

/// A transition as a plain value: its direction and the client's identity.
pub struct TransitionView {
    pub kind: TransitionKind,
    pub client: Seq<char>,
}

/// The transition of the client `client` to connected.
pub open spec fn activated(client: Seq<char>) -> TransitionView {
    TransitionView { kind: TransitionKind::Activated, client }
}

/// The transition of the client `client` to not connected.
pub open spec fn deactivated(client: Seq<char>) -> TransitionView {
    TransitionView { kind: TransitionKind::Deactivated, client }
}

/// One detected transition of one client.
#[derive(Clone, Debug)]
pub struct Transition {
    /// The direction.
    pub kind: TransitionKind,
    /// The identity of the client.
    pub client: String,
}

impl View for Transition {
    type V = TransitionView;

    open spec fn view(&self) -> TransitionView {
        TransitionView { kind: self.kind, client: self.client@ }
    }
}

/// The text that announces a transition of `client` on `server`.
pub open spec fn message_text(kind: TransitionKind, client: Seq<char>, server: Seq<char>) -> Seq<
    char,
> {
    match kind {
        TransitionKind::Activated => "'"@ + client + "' is now connected to '"@ + server + "'"@,
        TransitionKind::Deactivated => "'"@ + client + "' is disconnected from '"@ + server
            + "'"@,
    }
}

/// The texts that announce the transitions `events` on `server`, in their
/// order.
pub open spec fn message_texts(events: Seq<TransitionView>, server: Seq<char>) -> Seq<Seq<char>> {
    events.map_values(|e: TransitionView| message_text(e.kind, e.client, server))
}

/// The transitions that a list holds, as plain values, in its order.
pub open spec fn transition_views(list: Seq<Transition>) -> Seq<TransitionView> {
    list.map_values(|t: Transition| t@)
}

/// What a list of strings holds, as plain values.
pub open spec fn texts(list: Seq<String>) -> Seq<Seq<char>> {
    list.map_values(|s: String| s@)
}

impl Transition {
    /// The message that announces this transition on `server`.
    pub fn message(&self, server: &str) -> (text: String)
        ensures
            text@ == message_text(self.kind, self.client@, server@),
    {
        let mut text = "'".to_owned();
        text.append(self.client.as_str());
        match self.kind {
            TransitionKind::Activated => {
                text.append("' is now connected to '");
            },
            TransitionKind::Deactivated => {
                text.append("' is disconnected from '");
            },
        }
        text.append(server);
        text.append("'");
        text
    }
}

/// The messages that announce `events` on `server`, in their order.
pub fn messages(events: &Vec<Transition>, server: &str) -> (list: Vec<String>)
    ensures
        texts(list@) == message_texts(transition_views(events@), server@),
{
    let mut list: Vec<String> = Vec::new();
    let mut i: usize = 0;
    while i < events.len()
        invariant
            i <= events.len(),
            list.len() == i,
            forall|k: int|
                0 <= k < i ==> (#[trigger] list[k])@ == message_text(
                    events[k].kind,
                    events[k].client@,
                    server@,
                ),
        decreases events.len() - i,
    {
        list.push(events[i].message(server));
        i += 1;
    }
    assert(texts(list@) =~= message_texts(transition_views(events@), server@));
    list
}

/// On one server, the message tells the transition: two transitions with
/// the same message have the same direction and are of the same client.
pub proof fn lemma_message_tells_transition(
    a: TransitionView,
    b: TransitionView,
    server: Seq<char>,
)
    requires
        message_text(a.kind, a.client, server) == message_text(b.kind, b.client, server),
    ensures
        a.kind == b.kind,
        a.client == b.client,
{
    reveal_strlit("'");
    reveal_strlit("' is now connected to '");
    reveal_strlit("' is disconnected from '");
    let quote = "'"@;
    let on = "' is now connected to '"@;
    let off = "' is disconnected from '"@;
    let ta = message_text(a.kind, a.client, server);
    let tb = message_text(b.kind, b.client, server);
    let ma = if a.kind == TransitionKind::Activated {
        on
    } else {
        off
    };
    let mb = if b.kind == TransitionKind::Activated {
        on
    } else {
        off
    };
    assert(ta == quote + a.client + ma + server + quote);
    assert(tb == quote + b.client + mb + server + quote);
    let n = ta.len() as int;
    assert(n == 1 + a.client.len() + ma.len() + server.len() + 1);
    assert(n == 1 + b.client.len() + mb.len() + server.len() + 1);
    // the two texts differ in the letter four places before the server's name
    let at = n - server.len() - 5;
    assert(ta[at] == ma[ma.len() - 4]);
    assert(tb[at] == mb[mb.len() - 4]);
    assert(on[on.len() - 4] == 't');
    assert(off[off.len() - 4] == 'o');
    assert(a.kind == b.kind);
    assert(a.client.len() == b.client.len());
    assert forall|i: int| 0 <= i < a.client.len() implies a.client[i] == b.client[i] by {
        assert(ta[i + 1] == a.client[i]);
        assert(tb[i + 1] == b.client[i]);
    }
    assert(a.client =~= b.client);
}

} // verus!
