//! The registry of servers: one client state table for each server, and the
//! polls that bring the tables up to date.

use vstd::prelude::*;
use vstd::string::*;
use crate::event::{message_texts, texts};
use crate::session::{observations, Observation, SessionInfo};
use crate::table::{distinct_clients, table_after, transitions, ClientStateMap, ClientView};

verus! {

/// A server and its client state table, as plain values.
pub struct ServerView {
    pub name: Seq<char>,
    pub clients: Seq<ClientView>,
}

/// The registry has a table for the server `name`.
pub open spec fn has_server(r: Seq<ServerView>, name: Seq<char>) -> bool {
    exists|i: int| 0 <= i < r.len() && #[trigger] r[i].name == name
}

/// The registry has one table for each server at most, and each table has
/// one record of each client at most.
pub open spec fn well_formed(r: Seq<ServerView>) -> bool {
    &&& forall|i: int, j: int| 0 <= i < j < r.len() ==> r[i].name != r[j].name
    &&& forall|i: int| 0 <= i < r.len() ==> distinct_clients(#[trigger] r[i].clients)
}

/// The client state table of the server `name`.
pub open spec fn clients_of(r: Seq<ServerView>, name: Seq<char>) -> Seq<ClientView> {
    r[choose|i: int| 0 <= i < r.len() && #[trigger] r[i].name == name].clients
}

/// The registry with `clients` as the table of the server `name`.
pub open spec fn with_clients(r: Seq<ServerView>, name: Seq<char>, clients: Seq<ClientView>) -> Seq<
    ServerView,
> {
    r.map_values(
        |e: ServerView|
            if e.name == name {
                ServerView { name, clients }
            } else {
                e
            },
    )
}

/// The registry after the server `name` is registered: a server that is
/// new gets an empty table, in the last place; one that the registry has
/// keeps its table.
pub open spec fn registered(r: Seq<ServerView>, name: Seq<char>) -> Seq<ServerView> {
    if has_server(r, name) {
        r
    } else {
        r.push(ServerView { name, clients: Seq::empty() })
    }
}

/// Why a poll of a server brought no session list.
#[derive(Clone, Copy, Debug, PartialEq, Eq, Structural)]
pub enum PollFailure {
    /// No connection to the server could be opened.
    Connection,
    /// The server was reached, but its session list could not be read.
    Fetch,
}

/// What one poll of one server brought: the session list, or the failure.
#[derive(Debug)]
pub struct ServerPoll {
    /// The name of the server.
    pub server: String,
    /// The session list, or why there is none.
    pub outcome: Result<Vec<SessionInfo>, PollFailure>,
}

/// A poll as a plain value: the server's name and the session list, if the
/// poll brought one.
pub struct PollView {
    pub server: Seq<char>,
    pub sessions: Option<Seq<Observation>>,
}

impl View for ServerPoll {
    type V = PollView;

    open spec fn view(&self) -> PollView {
        PollView {
            server: self.server@,
            sessions: match self.outcome {
                Ok(list) => Some(observations(list@)),
                Err(_) => None,
            },
        }
    }
}

/// The polls that a list holds, as plain values, in its order.
pub open spec fn poll_views(list: Seq<ServerPoll>) -> Seq<PollView> {
    list.map_values(|p: ServerPoll| p@)
}

/// The registry after one poll: a poll that brought a session list brings
/// the table of its server up to date, a failed poll changes nothing.
pub open spec fn registry_after_poll(r: Seq<ServerView>, p: PollView) -> Seq<ServerView> {
    match p.sessions {
        Some(s) => with_clients(r, p.server, table_after(clients_of(r, p.server), s)),
        None => r,
    }
}

/// The messages of one poll: one for each transition that the session list
/// shows against the table of its server, none for a failed poll.
pub open spec fn poll_messages(r: Seq<ServerView>, p: PollView) -> Seq<Seq<char>> {
    match p.sessions {
        Some(s) => message_texts(transitions(clients_of(r, p.server), s), p.server),
        None => Seq::empty(),
    }
}

/// The registry after the polls of one cycle, taken in order.
pub open spec fn registry_after_cycle(r: Seq<ServerView>, polls: Seq<PollView>) -> Seq<ServerView>
    decreases polls.len(),
{
    if polls.len() == 0 {
        r
    } else {
        registry_after_poll(registry_after_cycle(r, polls.drop_last()), polls.last())
    }
}

/// The messages of one cycle: those of each poll, in the order of the
/// polls.
pub open spec fn cycle_messages(r: Seq<ServerView>, polls: Seq<PollView>) -> Seq<Seq<char>>
    decreases polls.len(),
{
    if polls.len() == 0 {
        Seq::empty()
    } else {
        cycle_messages(r, polls.drop_last()) + poll_messages(
            registry_after_cycle(r, polls.drop_last()),
            polls.last(),
        )
    }
}

/// Every poll that brought a session list is of a server that the registry
/// has a table for.
pub open spec fn polls_registered(r: Seq<ServerView>, polls: Seq<PollView>) -> bool {
    forall|i: int|
        0 <= i < polls.len() && (#[trigger] polls[i]).sessions.is_some() ==> has_server(
            r,
            polls[i].server,
        )
}

#[derive(Debug)]
struct ServerEntry {
    name: String,
    clients: ClientStateMap,
}

/// The registry of servers. It owns the client state table of every server
/// that was registered.
#[derive(Debug)]
pub struct ServerClientMap {
    servers: Vec<ServerEntry>,
}

impl View for ServerClientMap {
    type V = Seq<ServerView>;

    closed spec fn view(&self) -> Seq<ServerView> {
        self.servers@.map_values(|e: ServerEntry| ServerView { name: e.name@, clients: e.clients@ })
    }
}

impl ServerClientMap {
    /// The registry's invariant. Every registry that this module hands out
    /// has it.
    pub open spec fn wf(&self) -> bool {
        well_formed(self@)
    }

    /// A registry without servers.
    pub fn new() -> (registry: ServerClientMap)
        ensures
            registry.wf(),
            registry@ == Seq::<ServerView>::empty(),
    {
        let registry = ServerClientMap { servers: Vec::new() };
        assert(registry@ =~= Seq::<ServerView>::empty());
        registry
    }

    /// The number of servers in the registry.
    pub fn len(&self) -> (n: usize)
        ensures
            n == self@.len(),
    {
        self.servers.len()
    }

    fn position(&self, name: &String) -> (found: Option<usize>)
        ensures
            match found {
                Some(k) => k < self@.len() && self@[k as int].name == name@,
                None => !has_server(self@, name@),
            },
    {
        let mut k: usize = 0;
        while k < self.servers.len()
            invariant
                k <= self.servers.len(),
                forall|i: int| 0 <= i < k ==> (#[trigger] self@[i]).name != name@,
            decreases self.servers.len() - k,
        {
            if self.servers[k].name == *name {
                return Some(k);
            }
            k += 1;
        }
        None
    }

    /// Whether the registry has a table for the server `name`.
    pub fn contains(&self, name: &str) -> (found: bool)
        ensures
            found == has_server(self@, name@),
    {
        let name = name.to_owned();
        match self.position(&name) {
            Some(k) => {
                assert(self@[k as int].name == name@);
                true
            },
            None => false,
        }
    }

    /// Registers the server `name`. A server that is new gets an empty
    /// table; registering a server again changes nothing.
    pub fn register_server(&mut self, name: &str)
        requires
            old(self).wf(),
        ensures
            final(self).wf(),
            final(self)@ == registered(old(self)@, name@),
            has_server(final(self)@, name@),
    {
        let name = name.to_owned();
        let ghost before = self@;
        match self.position(&name) {
            Some(k) => {
                assert(self@[k as int].name == name@);
            },
            None => {
                self.servers.push(ServerEntry { name, clients: ClientStateMap::new() });
                assert(self@ =~= before.push(
                    ServerView { name: name@, clients: Seq::empty() },
                ));
                assert(self@[before.len() as int].name == name@);
            },
        }
    }

    /// Brings the table of the server `name` up to date with the session
    /// list that a poll of it brought, and returns the message of each
    /// transition that the list shows. The tables of the other servers stay
    /// as they are.
    pub fn update(&mut self, name: &str, snapshot: &[SessionInfo]) -> (list: Vec<String>)
        requires
            old(self).wf(),
            has_server(old(self)@, name@),
        ensures
            final(self).wf(),
            final(self)@ == with_clients(
                old(self)@,
                name@,
                table_after(clients_of(old(self)@, name@), observations(snapshot@)),
            ),
            texts(list@) == message_texts(
                transitions(clients_of(old(self)@, name@), observations(snapshot@)),
                name@,
            ),
    {
        let key = name.to_owned();
        let ghost before = self@;
        match self.position(&key) {
            Some(k) => {
                proof {
                    let c = choose|i: int| 0 <= i < before.len() && #[trigger] before[i].name == name@;
                    assert(before[k as int].name == name@);
                    assert(c == k) by {
                        if c < k {
                            assert(before[c].name != before[k as int].name);
                        }
                        if k < c {
                            assert(before[k as int].name != before[c].name);
                        }
                    }
                    assert(distinct_clients(before[k as int].clients));
                }
                let list = self.servers[k].clients.update(name, snapshot);
                proof {
                    let goal = with_clients(
                        before,
                        name@,
                        table_after(clients_of(before, name@), observations(snapshot@)),
                    );
                    assert(self@.len() == goal.len());
                    assert forall|i: int| 0 <= i < goal.len() implies self@[i] == goal[i] by {
                        if i != k {
                            assert(self@[i] == before[i]);
                            if i < k {
                                assert(before[i].name != before[k as int].name);
                            } else {
                                assert(before[k as int].name != before[i].name);
                            }
                        }
                    }
                    assert(self@ =~= goal);
                    lemma_with_clients_well_formed(
                        before,
                        name@,
                        table_after(clients_of(before, name@), observations(snapshot@)),
                    );
                }
                list
            },
            None => {
                proof {
                    assert(false);
                }
                Vec::new()
            },
        }
    }

    /// Takes what one poll of one server brought. A session list brings the
    /// table of that server up to date and gives the message of each
    /// transition; a failed poll gives no message and leaves every table as
    /// it is.
    pub fn read_active_connections(&mut self, poll: &ServerPoll) -> (list: Vec<String>)
        requires
            old(self).wf(),
            poll.outcome.is_ok() ==> has_server(old(self)@, poll.server@),
        ensures
            final(self).wf(),
            final(self)@ == registry_after_poll(old(self)@, poll@),
            texts(list@) == poll_messages(old(self)@, poll@),
            poll.outcome.is_err() ==> list@.len() == 0 && final(self)@ == old(self)@,
    {
        match &poll.outcome {
            Ok(sessions) => self.update(poll.server.as_str(), sessions.as_slice()),
            Err(_) => {
                let list: Vec<String> = Vec::new();
                assert(texts(list@) =~= Seq::<Seq<char>>::empty());
                list
            },
        }
    }

    /// Takes the polls of one cycle, in the order in which they are handed
    /// over, and returns the messages of the cycle: those of each poll, in
    /// that order. A failed poll adds nothing and does not keep the polls
    /// of the other servers from being taken.
    pub fn refresh_all_connections(&mut self, polls: &[ServerPoll]) -> (list: Vec<String>)
        requires
            old(self).wf(),
            polls_registered(old(self)@, poll_views(polls@)),
        ensures
            final(self).wf(),
            final(self)@ == registry_after_cycle(old(self)@, poll_views(polls@)),
            texts(list@) == cycle_messages(old(self)@, poll_views(polls@)),
    {
        let ghost before = self@;
        let ghost views = poll_views(polls@);
        let mut list: Vec<String> = Vec::new();
        let mut i: usize = 0;
        assert(views.take(0) =~= Seq::<PollView>::empty());
        assert(texts(list@) =~= Seq::<Seq<char>>::empty());
        while i < polls.len()
            invariant
                i <= polls.len(),
                views == poll_views(polls@),
                views.len() == polls.len(),
                polls_registered(before, views),
                self.wf(),
                self@ == registry_after_cycle(before, views.take(i as int)),
                texts(list@) == cycle_messages(before, views.take(i as int)),
            decreases polls.len() - i,
        {
            let ghost now = self@;
            let ghost said = texts(list@);
            proof {
                assert(views.take(i + 1).drop_last() =~= views.take(i as int));
                assert(views.take(i + 1).last() == views[i as int]);
                assert(views[i as int] == polls[i as int]@);
                lemma_cycle_keeps_servers(before, views.take(i as int), views[i as int].server);
            }
            let mut more = self.read_active_connections(&polls[i]);
            let ghost added = texts(more@);
            list.append(&mut more);
            assert(texts(list@) =~= said + added);
            i += 1;
        }
        assert(views.take(i as int) =~= views);
        list
    }

    /// The client state table of the server `name`, if the registry has
    /// one.
    pub fn table(&self, name: &str) -> (found: Option<&ClientStateMap>)
        requires
            self.wf(),
        ensures
            found.is_some() == has_server(self@, name@),
            match found {
                Some(t) => t@ == clients_of(self@, name@) && t.wf(),
                None => true,
            },
    {
        let name = name.to_owned();
        match self.position(&name) {
            Some(k) => {
                assert(self@[k as int].name == name@);
                Some(&self.servers[k].clients)
            },
            None => None,
        }
    }
}

/// A registry stays well formed when the table of one server is replaced
/// by a table with one record of each client at most.
pub proof fn lemma_with_clients_well_formed(
    r: Seq<ServerView>,
    name: Seq<char>,
    clients: Seq<ClientView>,
)
    requires
        well_formed(r),
        distinct_clients(clients),
    ensures
        well_formed(with_clients(r, name, clients)),
        forall|other: Seq<char>|
            has_server(with_clients(r, name, clients), other) == has_server(r, other),
{
    let u = with_clients(r, name, clients);
    assert forall|i: int| 0 <= i < r.len() implies (#[trigger] u[i]).name == r[i].name by {}
    assert forall|i: int, j: int| 0 <= i < j < u.len() implies u[i].name != u[j].name by {
        assert(u[i].name == r[i].name);
        assert(u[j].name == r[j].name);
    }
    assert forall|i: int| 0 <= i < u.len() implies distinct_clients(#[trigger] u[i].clients) by {
        assert(u[i].name == r[i].name);
        assert(distinct_clients(r[i].clients));
    }
    assert forall|other: Seq<char>| has_server(u, other) == has_server(r, other) by {
        if has_server(u, other) {
            let i = choose|i: int| 0 <= i < u.len() && #[trigger] u[i].name == other;
            assert(r[i].name == other);
        }
        if has_server(r, other) {
            let i = choose|i: int| 0 <= i < r.len() && #[trigger] r[i].name == other;
            assert(u[i].name == other);
        }
    }
}

/// No poll adds or removes a server.
pub proof fn lemma_poll_keeps_servers(r: Seq<ServerView>, p: PollView, name: Seq<char>)
    ensures
        has_server(registry_after_poll(r, p), name) == has_server(r, name),
        registry_after_poll(r, p).len() == r.len(),
{
    let u = registry_after_poll(r, p);
    if p.sessions.is_some() {
        assert forall|i: int| 0 <= i < r.len() implies (#[trigger] u[i]).name == r[i].name by {}
        if has_server(u, name) {
            let i = choose|i: int| 0 <= i < u.len() && #[trigger] u[i].name == name;
            assert(r[i].name == name);
        }
        if has_server(r, name) {
            let i = choose|i: int| 0 <= i < r.len() && #[trigger] r[i].name == name;
            assert(u[i].name == name);
        }
    }
}

/// No cycle adds or removes a server.
pub proof fn lemma_cycle_keeps_servers(r: Seq<ServerView>, polls: Seq<PollView>, name: Seq<char>)
    ensures
        has_server(registry_after_cycle(r, polls), name) == has_server(r, name),
        registry_after_cycle(r, polls).len() == r.len(),
    decreases polls.len(),
{
    if polls.len() > 0 {
        lemma_cycle_keeps_servers(r, polls.drop_last(), name);
        lemma_poll_keeps_servers(registry_after_cycle(r, polls.drop_last()), polls.last(), name);
    }
}

} // verus!
