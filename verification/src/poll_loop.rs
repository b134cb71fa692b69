//! The poll loop as a state machine: it says what is to be done next, takes
//! what came of it, and goes on. Whoever drives it does the outside work:
//! polls the servers, hands a message to the notification sink, sleeps.
//!
//! The servers of one cycle may be polled side by side. Each poll is handed
//! to the loop when it ends, one at a time: a driver that polls from several
//! tasks keeps the loop behind a lock and holds the lock for that one call.

use vstd::prelude::*;
use vstd::string::*;
use crate::event::texts;
use crate::registry::{
    has_server, poll_messages, registered, registry_after_poll, PollView, ServerClientMap,
    ServerPoll, ServerView,
};

verus! {

/// What the loop wants done next.
#[derive(Debug)]
pub enum LoopAction {
    /// Poll each of these servers, hand over what each poll brought, and
    /// say when all are done.
    Poll(Vec<String>),
    /// Hand this message to the notification sink, and say whether it took
    /// it.
    Deliver(String),
    /// Sleep for this many seconds.
    Sleep(u64),
}

/// An action as a plain value.
pub enum ActionView {
    Poll(Seq<Seq<char>>),
    Deliver(Seq<char>),
    Sleep(u64),
}

impl View for LoopAction {
    type V = ActionView;

    open spec fn view(&self) -> ActionView {
        match self {
            LoopAction::Poll(servers) => ActionView::Poll(texts(servers@)),
            LoopAction::Deliver(message) => ActionView::Deliver(message@),
            LoopAction::Sleep(seconds) => ActionView::Sleep(*seconds),
        }
    }
}

/// What came of the action that the loop asked for.
#[derive(Debug)]
pub enum LoopEvent {
    /// The poll of one server ended.
    ServerPolled(ServerPoll),
    /// The polls of all servers have ended.
    PollsDone,
    /// The notification sink took the message (`true`) or failed to.
    Delivered(bool),
    /// The sleep is over.
    Woke,
}

/// An event as a plain value.
pub enum EventView {
    ServerPolled(PollView),
    PollsDone,
    Delivered(bool),
    Woke,
}

impl View for LoopEvent {
    type V = EventView;

    open spec fn view(&self) -> EventView {
        match self {
            LoopEvent::ServerPolled(poll) => EventView::ServerPolled(poll@),
            LoopEvent::PollsDone => EventView::PollsDone,
            LoopEvent::Delivered(taken) => EventView::Delivered(*taken),
            LoopEvent::Woke => EventView::Woke,
        }
    }
}

/// Where in its cycle the loop is.
pub enum PhaseView {
    /// The servers are being polled; these are the messages of the polls
    /// that have ended.
    Polling(Seq<Seq<char>>),
    /// These messages of the cycle are still to be delivered; the first of
    /// them is with the notification sink.
    Delivering(Seq<Seq<char>>),
    /// The cycle is over, and the loop sleeps.
    Sleeping,
}

/// The loop as a plain value.
pub struct LoopView {
    pub servers: Seq<Seq<char>>,
    pub period: u64,
    pub registry: Seq<ServerView>,
    pub phase: PhaseView,
}

/// The registry after each of `names` is registered, in order.
pub open spec fn register_all(r: Seq<ServerView>, names: Seq<Seq<char>>) -> Seq<ServerView>
    decreases names.len(),
{
    if names.len() == 0 {
        r
    } else {
        registered(register_all(r, names.drop_last()), names.last())
    }
}

/// The loop at its start: an empty table for each server, and the first
/// cycle about to begin.
pub open spec fn initial(servers: Seq<Seq<char>>, period: u64) -> LoopView {
    LoopView {
        servers,
        period,
        registry: register_all(Seq::empty(), servers),
        phase: PhaseView::Polling(Seq::empty()),
    }
}

/// The phase in which `messages` are still to be delivered: with none left
/// the loop sleeps.
pub open spec fn queue(messages: Seq<Seq<char>>) -> PhaseView {
    if messages.len() > 0 {
        PhaseView::Delivering(messages)
    } else {
        PhaseView::Sleeping
    }
}

/// What the loop wants done in the state `v`.
pub open spec fn action_of(v: LoopView) -> ActionView {
    match v.phase {
        PhaseView::Polling(_) => ActionView::Poll(v.servers),
        PhaseView::Delivering(messages) => ActionView::Deliver(messages[0]),
        PhaseView::Sleeping => ActionView::Sleep(v.period),
    }
}

/// The loop can take the event: a poll that brought a session list is of a
/// server that is registered.
pub open spec fn accepts(v: LoopView, e: EventView) -> bool {
    match (v.phase, e) {
        (PhaseView::Polling(_), EventView::ServerPolled(poll)) => poll.sessions.is_some()
            ==> has_server(v.registry, poll.server),
        _ => true,
    }
}

/// The state after an event. Each poll of a cycle brings the table of its
/// server up to date and adds its messages to those of the cycle, in the
/// order in which the polls end. Once all polls are done the messages are
/// delivered one by one, whether the sink takes a message or not; after the
/// last one the loop sleeps, and after the sleep the next cycle begins. An
/// event that is not what the loop asked for changes nothing.
pub open spec fn step(v: LoopView, e: EventView) -> LoopView {
    match (v.phase, e) {
        (PhaseView::Polling(collected), EventView::ServerPolled(poll)) => LoopView {
            servers: v.servers,
            period: v.period,
            registry: registry_after_poll(v.registry, poll),
            phase: PhaseView::Polling(collected + poll_messages(v.registry, poll)),
        },
        (PhaseView::Polling(collected), EventView::PollsDone) => LoopView {
            servers: v.servers,
            period: v.period,
            registry: v.registry,
            phase: queue(collected),
        },
        (PhaseView::Delivering(messages), EventView::Delivered(_)) => LoopView {
            servers: v.servers,
            period: v.period,
            registry: v.registry,
            phase: queue(messages.skip(1)),
        },
        (PhaseView::Sleeping, EventView::Woke) => LoopView {
            servers: v.servers,
            period: v.period,
            registry: v.registry,
            phase: PhaseView::Polling(Seq::empty()),
        },
        _ => v,
    }
}

#[derive(Clone, Copy, Debug, PartialEq, Eq, Structural)]
enum Phase {
    Polling,
    Delivering,
    Sleeping,
}

/// The poll loop: the servers, the period, the registry of the servers'
/// tables, and the place in the current cycle.
#[derive(Debug)]
pub struct PollLoop {
    servers: Vec<String>,
    period: u64,
    registry: ServerClientMap,
    pending: Vec<String>,
    next: usize,
    phase: Phase,
}

impl View for PollLoop {
    type V = LoopView;

    closed spec fn view(&self) -> LoopView {
        LoopView {
            servers: texts(self.servers@),
            period: self.period,
            registry: self.registry@,
            phase: match self.phase {
                Phase::Polling => PhaseView::Polling(texts(self.pending@)),
                Phase::Delivering => PhaseView::Delivering(
                    texts(self.pending@).skip(self.next as int),
                ),
                Phase::Sleeping => PhaseView::Sleeping,
            },
        }
    }
}

/// A copy of a list of strings.
fn copy_of(list: &Vec<String>) -> (copy: Vec<String>)
    ensures
        texts(copy@) == texts(list@),
{
    let mut copy: Vec<String> = Vec::new();
    let mut i: usize = 0;
    while i < list.len()
        invariant
            i <= list.len(),
            copy.len() == i,
            forall|k: int| 0 <= k < i ==> (#[trigger] copy[k])@ == list[k]@,
        decreases list.len() - i,
    {
        copy.push(list[i].clone());
        i += 1;
    }
    assert(texts(copy@) =~= texts(list@));
    copy
}

impl PollLoop {
    /// The loop's invariant. Every loop that this module hands out has it.
    pub closed spec fn wf(&self) -> bool {
        &&& self.registry.wf()
        &&& self.phase == Phase::Delivering ==> self.next < self.pending.len()
    }

    /// A loop for `servers`, with `period` seconds of sleep between two
    /// cycles. Every server gets an empty table; the first action is to
    /// poll.
    pub fn new(servers: Vec<String>, period: u64) -> (this: PollLoop)
        ensures
            this.wf(),
            this@ == initial(texts(servers@), period),
    {
        let ghost names = texts(servers@);
        let mut registry = ServerClientMap::new();
        let mut i: usize = 0;
        assert(names.take(0) =~= Seq::<Seq<char>>::empty());
        while i < servers.len()
            invariant
                i <= servers.len(),
                names == texts(servers@),
                registry.wf(),
                registry@ == register_all(Seq::empty(), names.take(i as int)),
            decreases servers.len() - i,
        {
            assert(names.take(i + 1).drop_last() =~= names.take(i as int));
            assert(names.take(i + 1).last() == servers[i as int]@);
            registry.register_server(servers[i].as_str());
            i += 1;
        }
        assert(names.take(i as int) =~= names);
        let this = PollLoop {
            servers,
            period,
            registry,
            pending: Vec::new(),
            next: 0,
            phase: Phase::Polling,
        };
        assert(texts(this.pending@) =~= Seq::<Seq<char>>::empty());
        this
    }

    /// The registry of the servers' tables.
    pub fn registry(&self) -> (registry: &ServerClientMap)
        requires
            self.wf(),
        ensures
            registry@ == self@.registry,
            registry.wf(),
    {
        &self.registry
    }

    /// What the loop wants done next.
    pub fn action(&self) -> (action: LoopAction)
        requires
            self.wf(),
        ensures
            action@ == action_of(self@),
    {
        match self.phase {
            Phase::Polling => LoopAction::Poll(copy_of(&self.servers)),
            Phase::Delivering => LoopAction::Deliver(self.pending[self.next].clone()),
            Phase::Sleeping => LoopAction::Sleep(self.period),
        }
    }

    /// Whether the loop can take the event.
    pub fn can_take(&self, event: &LoopEvent) -> (ok: bool)
        requires
            self.wf(),
        ensures
            ok == accepts(self@, event@),
    {
        match (self.phase, event) {
            (Phase::Polling, LoopEvent::ServerPolled(poll)) => {
                poll.outcome.is_err() || self.registry.contains(poll.server.as_str())
            },
            _ => true,
        }
    }

    /// Takes what came of the last action, and returns the next one.
    pub fn advance(&mut self, event: LoopEvent) -> (action: LoopAction)
        requires
            old(self).wf(),
            accepts(old(self)@, event@),
        ensures
            final(self).wf(),
            final(self)@ == step(old(self)@, event@),
            action@ == action_of(final(self)@),
    {
        match (self.phase, event) {
            (Phase::Polling, LoopEvent::ServerPolled(poll)) => {
                let ghost collected = texts(self.pending@);
                let mut list = self.registry.read_active_connections(&poll);
                let ghost added = texts(list@);
                self.pending.append(&mut list);
                assert(texts(self.pending@) =~= collected + added);
            },
            (Phase::Polling, LoopEvent::PollsDone) => {
                self.next = 0;
                if self.pending.len() > 0 {
                    self.phase = Phase::Delivering;
                } else {
                    self.phase = Phase::Sleeping;
                }
                assert(texts(self.pending@).skip(0) =~= texts(self.pending@));
            },
            (Phase::Delivering, LoopEvent::Delivered(_)) => {
                let ghost before = texts(self.pending@).skip(self.next as int);
                self.next = self.next + 1;
                assert(texts(self.pending@).skip(self.next as int) =~= before.skip(1));
                if self.next == self.pending.len() {
                    self.phase = Phase::Sleeping;
                }
            },
            (Phase::Sleeping, LoopEvent::Woke) => {
                self.pending = Vec::new();
                self.phase = Phase::Polling;
                assert(texts(self.pending@) =~= Seq::<Seq<char>>::empty());
            },
            _ => {},
        }
        self.action()
    }
}

} // verus!
