//! The client state table of one server: the state in which each client was
//! last seen, and the transitions that a new session list brings.

use vstd::prelude::*;
use vstd::string::*;
use crate::event::{
    activated, deactivated, message_texts, messages, texts, transition_views, Transition,
    TransitionKind, TransitionView,
};
use crate::session::{observations, Observation, SessionInfo, SessionState};

verus! {

/// A client record as a plain value.
pub struct ClientView {
    pub client: Seq<char>,
    pub state: SessionState,
    pub user: Seq<char>,
}

/// No two records of the table are about one client.
pub open spec fn distinct_clients(t: Seq<ClientView>) -> bool {
    forall|i: int, j: int| 0 <= i < j < t.len() ==> t[i].client != t[j].client
}

/// The table holds a record of the client `c`.
pub open spec fn knows(t: Seq<ClientView>, c: Seq<char>) -> bool {
    exists|i: int| 0 <= i < t.len() && #[trigger] t[i].client == c
}

/// The table holds the client `c` as connected. A client that was never seen
/// is not connected.
pub open spec fn active_in(t: Seq<ClientView>, c: Seq<char>) -> bool {
    exists|i: int| 0 <= i < t.len() && #[trigger] t[i].client == c && t[i].state.active()
}

/// The record that the table holds of the client `c`.
pub open spec fn lookup(t: Seq<ClientView>, c: Seq<char>) -> Option<ClientView> {
    if knows(t, c) {
        Some(t[choose|i: int| 0 <= i < t.len() && #[trigger] t[i].client == c])
    } else {
        None
    }
}

/// The record that an entry of a session list leaves in the table.
pub open spec fn record_of(o: Observation) -> ClientView {
    ClientView { client: o.identity, state: o.state, user: o.user }
}

/// The table after one entry of a session list: the record of a known
/// client is replaced, the record of a new client comes last.
pub open spec fn observe(t: Seq<ClientView>, o: Observation) -> Seq<ClientView> {
    if knows(t, o.identity) {
        t.map_values(
            |r: ClientView|
                if r.client == o.identity {
                    record_of(o)
                } else {
                    r
                },
        )
    } else {
        t.push(record_of(o))
    }
}

/// The transition that one entry of a session list shows against the table:
/// one exactly where the entry and the table differ on whether the client is
/// connected.
pub open spec fn observed_event(t: Seq<ClientView>, o: Observation) -> Option<TransitionView> {
    if o.state.active() && !active_in(t, o.identity) {
        Some(activated(o.identity))
    } else if !o.state.active() && active_in(t, o.identity) {
        Some(deactivated(o.identity))
    } else {
        None
    }
}

/// The table after the entries of the session list `s`, taken in order.
pub open spec fn after_present(t: Seq<ClientView>, s: Seq<Observation>) -> Seq<ClientView>
    decreases s.len(),
{
    if s.len() == 0 {
        t
    } else {
        observe(after_present(t, s.drop_last()), s.last())
    }
}

/// The transitions that the entries of the session list `s` show, each
/// against the table as the entries before it left it, in the list's order.
pub open spec fn present_events(t: Seq<ClientView>, s: Seq<Observation>) -> Seq<TransitionView>
    decreases s.len(),
{
    if s.len() == 0 {
        Seq::empty()
    } else {
        let earlier = present_events(t, s.drop_last());
        match observed_event(after_present(t, s.drop_last()), s.last()) {
            Some(e) => earlier.push(e),
            None => earlier,
        }
    }
}

/// The session list `s` has an entry of the client `c`.
pub open spec fn mentioned(s: Seq<Observation>, c: Seq<char>) -> bool {
    exists|j: int| 0 <= j < s.len() && #[trigger] s[j].identity == c
}

/// The record is held as connected, and the session list `s` no longer has
/// the client.
pub open spec fn lapsed(r: ClientView, s: Seq<Observation>) -> bool {
    r.state.active() && !mentioned(s, r.client)
}

/// The record after the session list `s` was found not to have the client.
pub open spec fn settle(r: ClientView, s: Seq<Observation>) -> ClientView {
    if lapsed(r, s) {
        ClientView { client: r.client, state: SessionState::Disconnected, user: r.user }
    } else {
        r
    }
}

/// The table after every client that was connected and that the session
/// list `s` no longer has is set to disconnected.
pub open spec fn after_absence(t: Seq<ClientView>, s: Seq<Observation>) -> Seq<ClientView> {
    t.map_values(|r: ClientView| settle(r, s))
}

/// The transitions of the clients that were connected and that the session
/// list `s` no longer has, in the table's order.
pub open spec fn absence_events(t: Seq<ClientView>, s: Seq<Observation>) -> Seq<TransitionView>
    decreases t.len(),
{
    if t.len() == 0 {
        Seq::empty()
    } else {
        let earlier = absence_events(t.drop_last(), s);
        if lapsed(t.last(), s) {
            earlier.push(deactivated(t.last().client))
        } else {
            earlier
        }
    }
}

/// The table after one poll that brought the session list `s`.
pub open spec fn table_after(t: Seq<ClientView>, s: Seq<Observation>) -> Seq<ClientView> {
    after_absence(after_present(t, s), s)
}

/// The transitions that one poll with the session list `s` shows: those of
/// the clients in the list, in the list's order, then those of the clients
/// that the list no longer has, in the table's order.
pub open spec fn transitions(t: Seq<ClientView>, s: Seq<Observation>) -> Seq<TransitionView> {
    present_events(t, s) + absence_events(after_present(t, s), s)
}

/// What is held of one client: its identity, the state in which it was last
/// seen, and the user that was signed in then.
#[derive(Clone, Debug)]
pub struct ClientData {
    /// The identity of the client.
    pub client: String,
    /// The state in which the client was last seen.
    pub state: SessionState,
    /// The user that was signed in.
    pub user: String,
}

impl View for ClientData {
    type V = ClientView;

    open spec fn view(&self) -> ClientView {
        ClientView { client: self.client@, state: self.state, user: self.user@ }
    }
}

/// The client state table of one server. A client that was seen once keeps
/// its record; the records stand in the order in which the clients were
/// first seen.
#[derive(Debug)]
pub struct ClientStateMap {
    data: Vec<ClientData>,
}

impl View for ClientStateMap {
    type V = Seq<ClientView>;

    closed spec fn view(&self) -> Seq<ClientView> {
        self.data@.map_values(|d: ClientData| d@)
    }
}

impl ClientStateMap {
    /// The table's invariant: it holds one record of each client at most.
    /// Every table that this module hands out has it.
    pub open spec fn wf(&self) -> bool {
        distinct_clients(self@)
    }

    /// A table without records.
    pub fn new() -> (table: ClientStateMap)
        ensures
            table@ == Seq::<ClientView>::empty(),
            table.wf(),
    {
        let table = ClientStateMap { data: Vec::new() };
        assert(table@ =~= Seq::<ClientView>::empty());
        table
    }

    /// The number of clients that the table has a record of.
    pub fn len(&self) -> (n: usize)
        ensures
            n == self@.len(),
    {
        self.data.len()
    }

    /// Takes the session list of one poll: brings the table up to date and
    /// returns the transitions that the list shows, those of the clients in
    /// the list first, in the list's order, then those of the clients that
    /// the list no longer has.
    pub fn update_state(&mut self, client_info: &[SessionInfo]) -> (events: Vec<Transition>)
        requires
            old(self).wf(),
        ensures
            final(self).wf(),
            final(self)@ == table_after(old(self)@, observations(client_info@)),
            transition_views(events@) == transitions(old(self)@, observations(client_info@)),
    {
        let ghost before = self@;
        let ghost s = observations(client_info@);
        let mut events: Vec<Transition> = Vec::new();
        let mut seen: Vec<String> = Vec::new();
        let mut i: usize = 0;
        assert(s.take(0) =~= Seq::<Observation>::empty());
        assert(transition_views(events@) =~= Seq::<TransitionView>::empty());
        while i < client_info.len()
            invariant
                i <= client_info.len(),
                s == observations(client_info@),
                s.len() == client_info.len(),
                seen.len() == i,
                forall|j: int| 0 <= j < i ==> (#[trigger] seen[j])@ == s[j].identity,
                distinct_clients(self@),
                self@ == after_present(before, s.take(i as int)),
                transition_views(events@) == present_events(before, s.take(i as int)),
            decreases client_info.len() - i,
        {
            let entry = &client_info[i];
            let id = entry.identity();
            let now_active = entry.state.is_active();
            let ghost o = s[i as int];
            let ghost t = self@;
            let ghost ev = transition_views(events@);
            assert(o == entry@);
            assert(s.take(i + 1).drop_last() =~= s.take(i as int));
            assert(s.take(i + 1).last() == o);
            match self.position(&id) {
                None => {
                    self.data.push(
                        ClientData {
                            client: id.clone(),
                            state: entry.state,
                            user: entry.user.clone(),
                        },
                    );
                    assert(self@ =~= t.push(record_of(o)));
                    if now_active {
                        events.push(Transition { kind: TransitionKind::Activated, client: id.clone() });
                        assert(transition_views(events@) =~= ev.push(activated(o.identity)));
                    }
                },
                Some(k) => {
                    let was_active = self.data[k].state.is_active();
                    assert(was_active == active_in(t, o.identity)) by {
                        assert(t[k as int].client == o.identity);
                    }
                    self.data[k].state = entry.state;
                    self.data[k].user = entry.user.clone();
                    assert(self@ =~= observe(t, o)) by {
                        assert(t[k as int].client == o.identity);
                    }
                    if now_active && !was_active {
                        events.push(Transition { kind: TransitionKind::Activated, client: id.clone() });
                        assert(transition_views(events@) =~= ev.push(activated(o.identity)));
                    } else if !now_active && was_active {
                        events.push(
                            Transition { kind: TransitionKind::Deactivated, client: id.clone() },
                        );
                        assert(transition_views(events@) =~= ev.push(deactivated(o.identity)));
                    }
                },
            }
            seen.push(id);
            i += 1;
        }
        assert(s.take(i as int) =~= s);
        let ghost mid = self@;
        let ghost shown = transition_views(events@);
        let mut k: usize = 0;
        assert(mid.take(0) =~= Seq::<ClientView>::empty());
        assert(self@ =~= after_absence(mid.take(0), s) + mid.skip(0));
        while k < self.data.len()
            invariant
                k <= self.data.len(),
                s == observations(client_info@),
                seen.len() == s.len(),
                forall|j: int| 0 <= j < s.len() ==> (#[trigger] seen[j])@ == s[j].identity,
                distinct_clients(mid),
                self@.len() == mid.len(),
                self@ =~= after_absence(mid.take(k as int), s) + mid.skip(k as int),
                transition_views(events@) == shown + absence_events(mid.take(k as int), s),
            decreases self.data.len() - k,
        {
            let ghost ev = transition_views(events@);
            let ghost now = self@;
            assert(mid.take(k + 1).drop_last() =~= mid.take(k as int));
            assert(mid.take(k + 1).last() == mid[k as int]);
            assert(now[k as int] == mid[k as int]);
            if self.data[k].state.is_active() && !holds(&seen, &self.data[k].client) {
                assert(lapsed(mid[k as int], s)) by {
                    if mentioned(s, mid[k as int].client) {
                        let j = choose|j: int|
                            0 <= j < s.len() && #[trigger] s[j].identity == mid[k as int].client;
                        assert(seen[j]@ == mid[k as int].client);
                    }
                }
                events.push(
                    Transition {
                        kind: TransitionKind::Deactivated,
                        client: self.data[k].client.clone(),
                    },
                );
                assert(transition_views(events@) =~= ev.push(deactivated(mid[k as int].client)));
                self.data[k].state = SessionState::Disconnected;
            } else {
                assert(!lapsed(mid[k as int], s)) by {
                    if mid[k as int].state.active() {
                        let j = choose|j: int| 0 <= j < seen.len() && #[trigger] seen[j]@ == mid[k as int].client;
                        assert(s[j].identity == mid[k as int].client);
                    }
                }
            }
            assert(self@ =~= after_absence(mid.take(k + 1), s) + mid.skip(k + 1)) by {
                let next = self@;
                let goal = after_absence(mid.take(k + 1), s) + mid.skip(k + 1);
                assert(next.len() == goal.len());
                assert forall|n: int| 0 <= n < next.len() implies next[n] == goal[n] by {
                    if n < k {
                        assert(next[n] == now[n]);
                        assert(now[n] == after_absence(mid.take(k as int), s)[n]);
                        assert(mid.take(k as int)[n] == mid.take(k + 1)[n]);
                    } else if n == k {
                        assert(next[n] == settle(mid[k as int], s));
                        assert(mid.take(k + 1)[n] == mid[k as int]);
                    } else {
                        assert(next[n] == now[n]);
                        assert(now[n] == mid.skip(k as int)[n - k]);
                        assert(goal[n] == mid.skip(k + 1)[n - k - 1]);
                    }
                }
            }
            k += 1;
        }
        assert(mid.take(k as int) =~= mid);
        assert(self@ =~= after_absence(mid, s));
        events
    }

    /// Takes the session list that one poll of `server` brought: brings the
    /// table up to date and returns the message of each transition that the
    /// list shows, in the order of `update_state`.
    pub fn update(&mut self, server: &str, snapshot: &[SessionInfo]) -> (list: Vec<String>)
        requires
            old(self).wf(),
        ensures
            final(self).wf(),
            final(self)@ == table_after(old(self)@, observations(snapshot@)),
            texts(list@) == message_texts(
                transitions(old(self)@, observations(snapshot@)),
                server@,
            ),
    {
        let events = self.update_state(snapshot);
        messages(&events, server)
    }

    /// The record of the client with the identity `client`, if the table has
    /// one.
    pub fn get(&self, client: &str) -> (found: Option<&ClientData>)
        requires
            self.wf(),
        ensures
            match found {
                Some(d) => lookup(self@, client@) == Some(d@),
                None => lookup(self@, client@).is_none(),
            },
    {
        let name = client.to_owned();
        match self.position(&name) {
            Some(k) => {
                assert(self@[k as int].client == client@);
                Some(&self.data[k])
            },
            None => None,
        }
    }

    /// Whether the table holds the client with the identity `client` as
    /// connected.
    pub fn is_active(&self, client: &str) -> (active: bool)
        requires
            self.wf(),
        ensures
            active == active_in(self@, client@),
    {
        let name = client.to_owned();
        match self.position(&name) {
            Some(k) => {
                assert(self@[k as int].client == client@);
                self.data[k].state.is_active()
            },
            None => false,
        }
    }

    fn position(&self, client: &String) -> (found: Option<usize>)
        ensures
            match found {
                Some(k) => k < self@.len() && self@[k as int].client == client@,
                None => !knows(self@, client@),
            },
    {
        let mut k: usize = 0;
        while k < self.data.len()
            invariant
                k <= self.data.len(),
                forall|i: int| 0 <= i < k ==> (#[trigger] self@[i]).client != client@,
            decreases self.data.len() - k,
        {
            if self.data[k].client == *client {
                return Some(k);
            }
            k += 1;
        }
        None
    }
}

/// Whether one of the strings of `list` equals `text`.
fn holds(list: &Vec<String>, text: &String) -> (found: bool)
    ensures
        found == exists|j: int| 0 <= j < list.len() && (#[trigger] list[j])@ == text@,
{
    let mut j: usize = 0;
    while j < list.len()
        invariant
            j <= list.len(),
            forall|i: int| 0 <= i < j ==> (#[trigger] list[i])@ != text@,
        decreases list.len() - j,
    {
        if list[j] == *text {
            return true;
        }
        j += 1;
    }
    false
}

} // verus!
