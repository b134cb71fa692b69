//! What holds of every run of the poll loop.

use vstd::prelude::*;
use crate::poll_loop::{
    accepts, action_of, initial, queue, register_all, step, ActionView, EventView, LoopView,
    PhaseView,
};
use crate::registry::{
    cycle_messages, has_server, lemma_poll_keeps_servers, poll_messages, registry_after_cycle,
    well_formed, PollView, ServerView,
};
use crate::table::distinct_clients;

verus! {

/// The state after the events `events`, taken in order.
pub open spec fn run(v: LoopView, events: Seq<EventView>) -> LoopView
    decreases events.len(),
{
    if events.len() == 0 {
        v
    } else {
        step(run(v, events.drop_last()), events.last())
    }
}

/// The events that hand over the polls `polls`, one after the other.
pub open spec fn server_polls(polls: Seq<PollView>) -> Seq<EventView> {
    polls.map_values(|poll: PollView| EventView::ServerPolled(poll))
}

/// The events that tell, for one message after the other, whether the
/// notification sink took it.
pub open spec fn deliveries(results: Seq<bool>) -> Seq<EventView> {
    results.map_values(|taken: bool| EventView::Delivered(taken))
}

/// The polls of a cycle, handed over one by one in any order, leave the
/// registry as the cycle of those polls in that order leaves it, and add the
/// messages of that cycle to those that were collected.
pub proof fn lemma_polls_collect_the_cycle(
    v: LoopView,
    collected: Seq<Seq<char>>,
    polls: Seq<PollView>,
)
    requires
        v.phase == PhaseView::Polling(collected),
    ensures
        run(v, server_polls(polls)).phase == PhaseView::Polling(
            collected + cycle_messages(v.registry, polls),
        ),
        run(v, server_polls(polls)).registry == registry_after_cycle(v.registry, polls),
        run(v, server_polls(polls)).servers == v.servers,
        run(v, server_polls(polls)).period == v.period,
    decreases polls.len(),
{
    if polls.len() == 0 {
        assert(collected + cycle_messages(v.registry, polls) =~= collected);
    } else {
        let earlier = polls.drop_last();
        lemma_polls_collect_the_cycle(v, collected, earlier);
        assert(server_polls(polls).drop_last() =~= server_polls(earlier));
        assert(server_polls(polls).last() == EventView::ServerPolled(polls.last()));
        let before = run(v, server_polls(earlier));
        assert(collected + cycle_messages(v.registry, earlier) + poll_messages(
            before.registry,
            polls.last(),
        ) =~= collected + cycle_messages(v.registry, polls));
    }
}

/// The events of one cycle up to some delivery: the polls, the word that
/// all are done, and what came of the first deliveries.
pub open spec fn cycle_events(polls: Seq<PollView>, results: Seq<bool>) -> Seq<EventView> {
    server_polls(polls).push(EventView::PollsDone) + deliveries(results)
}

/// Every message of a cycle is handed to the notification sink, each once
/// and in order, whether or not the sink took the messages before it: after
/// the polls and any number of deliveries, the messages that follow those
/// are still to be delivered, the next of them first; after the last one the
/// loop sleeps for its period. The deliveries leave the registry as the
/// polls left it.
pub proof fn lemma_every_message_is_delivered(
    v: LoopView,
    polls: Seq<PollView>,
    results: Seq<bool>,
)
    requires
        v.phase == PhaseView::Polling(Seq::<Seq<char>>::empty()),
        results.len() <= cycle_messages(v.registry, polls).len(),
    ensures
        ({
            let messages = cycle_messages(v.registry, polls);
            let after = run(v, cycle_events(polls, results));
            &&& after.phase == queue(messages.skip(results.len() as int))
            &&& after.registry == registry_after_cycle(v.registry, polls)
            &&& after.servers == v.servers
            &&& after.period == v.period
            &&& results.len() < messages.len() ==> action_of(after) == ActionView::Deliver(
                messages[results.len() as int],
            )
            &&& results.len() == messages.len() ==> action_of(after) == ActionView::Sleep(v.period)
        }),
    decreases results.len(),
{
    let messages = cycle_messages(v.registry, polls);
    let polled = server_polls(polls).push(EventView::PollsDone);
    if results.len() == 0 {
        lemma_polls_collect_the_cycle(v, Seq::empty(), polls);
        assert(Seq::<Seq<char>>::empty() + messages =~= messages);
        assert(polled.drop_last() =~= server_polls(polls));
        assert(polled.last() == EventView::PollsDone);
        assert(cycle_events(polls, results) =~= polled);
        assert(messages.skip(0) =~= messages);
    } else {
        let earlier = results.drop_last();
        lemma_every_message_is_delivered(v, polls, earlier);
        assert(cycle_events(polls, results).drop_last() =~= cycle_events(polls, earlier));
        assert(cycle_events(polls, results).last() == EventView::Delivered(results.last()));
        let before = run(v, cycle_events(polls, earlier));
        assert(before.phase == PhaseView::Delivering(messages.skip(earlier.len() as int)));
        assert(messages.skip(earlier.len() as int).skip(1) =~= messages.skip(
            results.len() as int,
        ));
    }
    if results.len() < messages.len() {
        assert(messages.skip(results.len() as int)[0] == messages[results.len() as int]);
    }
}

/// The loop never ends and never changes its settings: whatever events
/// come, it polls the same servers and sleeps for the same period, and
/// after a sleep it polls again.
pub proof fn lemma_loop_goes_on(v: LoopView, events: Seq<EventView>)
    ensures
        run(v, events).servers == v.servers,
        run(v, events).period == v.period,
        run(v, events).phase == PhaseView::Sleeping ==> action_of(
            step(run(v, events), EventView::Woke),
        ) == ActionView::Poll(v.servers),
    decreases events.len(),
{
    if events.len() > 0 {
        lemma_loop_goes_on(v, events.drop_last());
    }
}

/// Registering servers keeps the registry well formed, keeps every server
/// that it had, and adds each of the names.
pub proof fn lemma_register_all(r: Seq<ServerView>, names: Seq<Seq<char>>)
    requires
        well_formed(r),
    ensures
        well_formed(register_all(r, names)),
        forall|name: Seq<char>| has_server(r, name) ==> has_server(register_all(r, names), name),
        forall|i: int|
            0 <= i < names.len() ==> has_server(register_all(r, names), #[trigger] names[i]),
    decreases names.len(),
{
    if names.len() > 0 {
        let rest = names.drop_last();
        let name = names.last();
        let before = register_all(r, rest);
        let after = register_all(r, names);
        lemma_register_all(r, rest);
        if has_server(before, name) {
        } else {
            assert(after == before.push(ServerView { name, clients: Seq::empty() }));
            assert(after[before.len() as int].name == name);
            assert forall|i: int, j: int| 0 <= i < j < after.len() implies after[i].name
                != after[j].name by {
                if j == before.len() {
                    assert(after[i] == before[i]);
                    assert(before[i].name != name);
                } else {
                    assert(after[i] == before[i]);
                    assert(after[j] == before[j]);
                }
            }
            assert forall|i: int| 0 <= i < after.len() implies distinct_clients(
                #[trigger] after[i].clients,
            ) by {
                if i < before.len() {
                    assert(after[i] == before[i]);
                }
            }
        }
        assert forall|other: Seq<char>| has_server(before, other) implies has_server(
            after,
            other,
        ) by {
            let i = choose|i: int| 0 <= i < before.len() && #[trigger] before[i].name == other;
            assert(after[i].name == other);
        }
        assert forall|i: int| 0 <= i < names.len() implies has_server(
            after,
            #[trigger] names[i],
        ) by {
            if i < rest.len() {
                assert(rest[i] == names[i]);
                assert(has_server(before, rest[i]));
            }
        }
    }
}

/// The loop has a table for each of its servers, at the start and after
/// any events: a poll of one of them is never refused.
pub proof fn lemma_every_server_stays_registered(
    servers: Seq<Seq<char>>,
    period: u64,
    events: Seq<EventView>,
    i: int,
)
    requires
        0 <= i < servers.len(),
    ensures
        has_server(run(initial(servers, period), events).registry, servers[i]),
        forall|poll: PollView|
            poll.server == servers[i] ==> #[trigger] accepts(
                run(initial(servers, period), events),
                EventView::ServerPolled(poll),
            ),
    decreases events.len(),
{
    if events.len() == 0 {
        lemma_register_all(Seq::empty(), servers);
    } else {
        lemma_every_server_stays_registered(servers, period, events.drop_last(), i);
        let before = run(initial(servers, period), events.drop_last());
        match (before.phase, events.last()) {
            (PhaseView::Polling(_), EventView::ServerPolled(poll)) => {
                lemma_poll_keeps_servers(before.registry, poll, servers[i]);
            },
            _ => {},
        }
    }
}

} // verus!
