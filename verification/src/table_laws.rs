//! What holds of every poll of a client state table: how the transitions
//! that a poll reports relate to the table before and after it.

use vstd::prelude::*;
use crate::event::{activated, deactivated, TransitionView};
use crate::session::{Observation, SessionState};
use crate::table::{
    absence_events, active_in, after_absence, after_present, distinct_clients, knows, lapsed,
    mentioned, observe, observed_event, present_events, record_of, settle, table_after,
    transitions, ClientView,
};

verus! {

/// How often the transition `x` stands in `e`.
pub open spec fn occurrences(e: Seq<TransitionView>, x: TransitionView) -> nat
    decreases e.len(),
{
    if e.len() == 0 {
        0
    } else {
        occurrences(e.drop_last(), x) + if e.last() == x {
            1nat
        } else {
            0nat
        }
    }
}

/// How many transitions of the client `c` stand in `e`.
pub open spec fn events_about(e: Seq<TransitionView>, c: Seq<char>) -> nat {
    occurrences(e, activated(c)) + occurrences(e, deactivated(c))
}

/// The session list `s` has one entry of the client `c` at most.
pub open spec fn mentioned_once_at_most(s: Seq<Observation>, c: Seq<char>) -> bool {
    forall|i: int, j: int|
        0 <= i < j < s.len() ==> !(#[trigger] s[i].identity == c && #[trigger] s[j].identity == c)
}

/// The entries that the session list `s` has of the client `c` agree on
/// whether the client is connected. A list with one entry of the client at
/// most is of this kind.
pub open spec fn agreeing(s: Seq<Observation>, c: Seq<char>) -> bool {
    forall|i: int, j: int|
        0 <= i < j < s.len() && #[trigger] s[i].identity == c && #[trigger] s[j].identity == c
            ==> s[i].state.active() == s[j].state.active()
}

/// The entries that the session list `s` has of one client agree on whether
/// the client is connected, for every client.
pub open spec fn steady(s: Seq<Observation>) -> bool {
    forall|i: int, j: int|
        0 <= i < j < s.len() && #[trigger] s[i].identity == #[trigger] s[j].identity
            ==> s[i].state.active() == s[j].state.active()
}

/// One for a client that is connected, zero for one that is not.
pub open spec fn level(connected: bool) -> int {
    if connected {
        1
    } else {
        0
    }
}

proof fn lemma_occurrences_push(e: Seq<TransitionView>, y: TransitionView, x: TransitionView)
    ensures
        occurrences(e.push(y), x) == occurrences(e, x) + if y == x {
            1nat
        } else {
            0nat
        },
{
    assert(e.push(y).drop_last() =~= e);
    assert(e.push(y).last() == y);
}

proof fn lemma_occurrences_concat(a: Seq<TransitionView>, b: Seq<TransitionView>, x: TransitionView)
    ensures
        occurrences(a + b, x) == occurrences(a, x) + occurrences(b, x),
    decreases b.len(),
{
    if b.len() == 0 {
        assert(a + b =~= a);
    } else {
        lemma_occurrences_concat(a, b.drop_last(), x);
        assert((a + b).drop_last() =~= a + b.drop_last());
        assert((a + b).last() == b.last());
    }
}

/// One entry of a session list leaves the table with one record of each
/// client at most.
pub proof fn lemma_observe_distinct(t: Seq<ClientView>, o: Observation)
    requires
        distinct_clients(t),
    ensures
        distinct_clients(observe(t, o)),
{
    let u = observe(t, o);
    if knows(t, o.identity) {
        assert forall|i: int, j: int| 0 <= i < j < u.len() implies u[i].client != u[j].client by {
            assert(u[i].client == t[i].client);
            assert(u[j].client == t[j].client);
        }
    } else {
        assert forall|i: int, j: int| 0 <= i < j < u.len() implies u[i].client != u[j].client by {
            if j == t.len() {
                assert(u[i] == t[i]);
                assert(u[j].client == o.identity);
            } else {
                assert(u[i] == t[i]);
                assert(u[j] == t[j]);
            }
        }
    }
}

/// The entries of a session list leave the table with one record of each
/// client at most.
pub proof fn lemma_after_present_distinct(t: Seq<ClientView>, s: Seq<Observation>)
    requires
        distinct_clients(t),
    ensures
        distinct_clients(after_present(t, s)),
    decreases s.len(),
{
    if s.len() > 0 {
        lemma_after_present_distinct(t, s.drop_last());
        lemma_observe_distinct(after_present(t, s.drop_last()), s.last());
    }
}

/// After one entry of a session list the table holds the entry's client as
/// the entry says, and every other client as before.
pub proof fn lemma_observe_activity(t: Seq<ClientView>, o: Observation, c: Seq<char>)
    ensures
        active_in(observe(t, o), c) == if o.identity == c {
            o.state.active()
        } else {
            active_in(t, c)
        },
        knows(observe(t, o), c) == (o.identity == c || knows(t, c)),
{
    let u = observe(t, o);
    if knows(t, o.identity) {
        let k = choose|k: int| 0 <= k < t.len() && #[trigger] t[k].client == o.identity;
        assert(u.len() == t.len());
        assert forall|i: int| 0 <= i < t.len() implies #[trigger] u[i] == (if t[i].client
            == o.identity {
            record_of(o)
        } else {
            t[i]
        }) by {}
        if o.identity == c {
            assert(u[k].client == c);
            if o.state.active() {
                assert(u[k].client == c && u[k].state.active());
            }
            if active_in(u, c) {
                let i = choose|i: int|
                    0 <= i < u.len() && #[trigger] u[i].client == c && u[i].state.active();
                assert(t[i].client == o.identity || u[i] == t[i]);
            }
        } else {
            if active_in(t, c) {
                let i = choose|i: int|
                    0 <= i < t.len() && #[trigger] t[i].client == c && t[i].state.active();
                assert(u[i].client == c && u[i].state.active());
            }
            if active_in(u, c) {
                let i = choose|i: int|
                    0 <= i < u.len() && #[trigger] u[i].client == c && u[i].state.active();
                assert(t[i].client == c && t[i].state.active());
            }
            if knows(t, c) {
                let i = choose|i: int| 0 <= i < t.len() && #[trigger] t[i].client == c;
                assert(u[i].client == c);
            }
            if knows(u, c) {
                let i = choose|i: int| 0 <= i < u.len() && #[trigger] u[i].client == c;
                assert(t[i].client == c);
            }
        }
    } else {
        assert(u.len() == t.len() + 1);
        assert(u[t.len() as int] == record_of(o));
        assert forall|i: int| 0 <= i < t.len() implies #[trigger] u[i] == t[i] by {}
        if o.identity == c {
            assert(u[t.len() as int].client == c);
            if active_in(u, c) {
                let i = choose|i: int|
                    0 <= i < u.len() && #[trigger] u[i].client == c && u[i].state.active();
                if i < t.len() {
                    assert(t[i].client == c);
                }
            }
        } else {
            if active_in(t, c) {
                let i = choose|i: int|
                    0 <= i < t.len() && #[trigger] t[i].client == c && t[i].state.active();
                assert(u[i].client == c && u[i].state.active());
            }
            if active_in(u, c) {
                let i = choose|i: int|
                    0 <= i < u.len() && #[trigger] u[i].client == c && u[i].state.active();
                assert(t[i].client == c && t[i].state.active());
            }
            if knows(t, c) {
                let i = choose|i: int| 0 <= i < t.len() && #[trigger] t[i].client == c;
                assert(u[i].client == c);
            }
            if knows(u, c) {
                let i = choose|i: int| 0 <= i < u.len() && #[trigger] u[i].client == c;
                assert(t[i].client == c);
            }
        }
    }
}

/// Over the entries of a session list, the transitions of one client to
/// connected, less those to not connected, are what the table gained.
proof fn lemma_present_balance(t: Seq<ClientView>, s: Seq<Observation>, c: Seq<char>)
    ensures
        occurrences(present_events(t, s), activated(c)) - occurrences(
            present_events(t, s),
            deactivated(c),
        ) == level(active_in(after_present(t, s), c)) - level(active_in(t, c)),
    decreases s.len(),
{
    if s.len() > 0 {
        let o = s.last();
        let before = after_present(t, s.drop_last());
        let earlier = present_events(t, s.drop_last());
        lemma_present_balance(t, s.drop_last(), c);
        lemma_observe_activity(before, o, c);
        match observed_event(before, o) {
            Some(e) => {
                lemma_occurrences_push(earlier, e, activated(c));
                lemma_occurrences_push(earlier, e, deactivated(c));
            },
            None => {},
        }
    }
}

/// The entries of a session list that does not have a client show no
/// transition of it and leave it as it was.
proof fn lemma_present_silent(t: Seq<ClientView>, s: Seq<Observation>, c: Seq<char>)
    requires
        !mentioned(s, c),
    ensures
        occurrences(present_events(t, s), activated(c)) == 0,
        occurrences(present_events(t, s), deactivated(c)) == 0,
        active_in(after_present(t, s), c) == active_in(t, c),
        knows(after_present(t, s), c) == knows(t, c),
    decreases s.len(),
{
    if s.len() > 0 {
        let o = s.last();
        let before = after_present(t, s.drop_last());
        let earlier = present_events(t, s.drop_last());
        assert(o == s[s.len() - 1]);
        assert(o.identity != c);
        assert(!mentioned(s.drop_last(), c)) by {
            if mentioned(s.drop_last(), c) {
                let j = choose|j: int|
                    0 <= j < s.drop_last().len() && #[trigger] s.drop_last()[j].identity == c;
                assert(s[j].identity == c);
            }
        }
        lemma_present_silent(t, s.drop_last(), c);
        lemma_observe_activity(before, o, c);
        match observed_event(before, o) {
            Some(e) => {
                lemma_occurrences_push(earlier, e, activated(c));
                lemma_occurrences_push(earlier, e, deactivated(c));
            },
            None => {},
        }
    }
}

/// A list with one entry of a client at most has entries of that client
/// that agree.
pub proof fn lemma_single_entry_agrees(s: Seq<Observation>, c: Seq<char>)
    requires
        mentioned_once_at_most(s, c),
    ensures
        agreeing(s, c),
{
}

/// A list whose entries of one client agree, for every client, has
/// entries of each client that agree.
pub proof fn lemma_steady_agrees(s: Seq<Observation>, c: Seq<char>)
    requires
        steady(s),
    ensures
        agreeing(s, c),
{
}

proof fn lemma_agreeing_prefix(s: Seq<Observation>, c: Seq<char>)
    requires
        agreeing(s, c),
        s.len() > 0,
    ensures
        agreeing(s.drop_last(), c),
{
    let rest = s.drop_last();
    assert forall|i: int, j: int|
        0 <= i < j < rest.len() && #[trigger] rest[i].identity == c && #[trigger] rest[j].identity
            == c implies rest[i].state.active() == rest[j].state.active() by {
        assert(rest[i] == s[i]);
        assert(rest[j] == s[j]);
    }
}

/// After the entries of a session list whose entries of a client agree,
/// the table holds that client as any of those entries says.
proof fn lemma_present_activity(t: Seq<ClientView>, s: Seq<Observation>, j: int)
    requires
        0 <= j < s.len(),
        agreeing(s, s[j].identity),
    ensures
        active_in(after_present(t, s), s[j].identity) == s[j].state.active(),
    decreases s.len(),
{
    let c = s[j].identity;
    let rest = s.drop_last();
    let o = s.last();
    assert(o == s[s.len() - 1]);
    lemma_observe_activity(after_present(t, rest), o, c);
    if o.identity != c {
        lemma_agreeing_prefix(s, c);
        assert(rest[j] == s[j]);
        lemma_present_activity(t, rest, j);
    }
}

/// The entries of a session list whose entries of a client agree show one
/// transition of that client at most.
proof fn lemma_present_once(t: Seq<ClientView>, s: Seq<Observation>, c: Seq<char>)
    requires
        agreeing(s, c),
    ensures
        events_about(present_events(t, s), c) <= 1,
    decreases s.len(),
{
    if s.len() > 0 {
        let o = s.last();
        let rest = s.drop_last();
        let n = s.len() - 1;
        let before = after_present(t, rest);
        let earlier = present_events(t, rest);
        assert(o == s[n]);
        lemma_agreeing_prefix(s, c);
        lemma_present_once(t, rest, c);
        if o.identity == c {
            if mentioned(rest, c) {
                let j = choose|j: int| 0 <= j < rest.len() && #[trigger] rest[j].identity == c;
                assert(rest[j] == s[j]);
                assert(s[j].identity == c && s[n].identity == c);
                lemma_present_activity(t, rest, j);
                assert(observed_event(before, o).is_none());
            } else {
                lemma_present_silent(t, rest, c);
            }
        }
        match observed_event(before, o) {
            Some(e) => {
                lemma_occurrences_push(earlier, e, activated(c));
                lemma_occurrences_push(earlier, e, deactivated(c));
            },
            None => {},
        }
    }
}

/// What the search for clients that a session list no longer has reports
/// of one client, and how it leaves that client.
proof fn lemma_absence(t: Seq<ClientView>, s: Seq<Observation>, c: Seq<char>)
    requires
        distinct_clients(t),
    ensures
        occurrences(absence_events(t, s), activated(c)) == 0,
        occurrences(absence_events(t, s), deactivated(c)) == level(
            active_in(t, c) && !mentioned(s, c),
        ),
        active_in(after_absence(t, s), c) == (active_in(t, c) && mentioned(s, c)),
        knows(after_absence(t, s), c) == knows(t, c),
    decreases t.len(),
{
    let u = after_absence(t, s);
    assert(u.len() == t.len());
    assert forall|i: int| 0 <= i < t.len() implies #[trigger] u[i] == settle(t[i], s) by {}
    if t.len() == 0 {
    } else {
        let rest = t.drop_last();
        let r = t.last();
        let n = t.len() - 1;
        assert(r == t[n]);
        assert forall|i: int| 0 <= i < rest.len() implies #[trigger] rest[i] == t[i] by {}
        assert(distinct_clients(rest));
        lemma_absence(rest, s, c);
        let earlier = absence_events(rest, s);
        if lapsed(r, s) {
            lemma_occurrences_push(earlier, deactivated(r.client), activated(c));
            lemma_occurrences_push(earlier, deactivated(r.client), deactivated(c));
        }
        // the last record is the only one of its client
        if r.client == c {
            assert(!active_in(rest, c)) by {
                if active_in(rest, c) {
                    let i = choose|i: int|
                        0 <= i < rest.len() && #[trigger] rest[i].client == c
                            && rest[i].state.active();
                    assert(t[i].client == t[n].client);
                }
            }
            assert(active_in(t, c) == r.state.active()) by {
                if r.state.active() {
                    assert(t[n].client == c && t[n].state.active());
                }
                if active_in(t, c) {
                    let i = choose|i: int|
                        0 <= i < t.len() && #[trigger] t[i].client == c && t[i].state.active();
                    if i < n {
                        assert(t[i].client == t[n].client);
                    }
                }
            }
        } else {
            assert(active_in(t, c) == active_in(rest, c)) by {
                if active_in(rest, c) {
                    let i = choose|i: int|
                        0 <= i < rest.len() && #[trigger] rest[i].client == c
                            && rest[i].state.active();
                    assert(t[i].client == c && t[i].state.active());
                }
                if active_in(t, c) {
                    let i = choose|i: int|
                        0 <= i < t.len() && #[trigger] t[i].client == c && t[i].state.active();
                    assert(rest[i].client == c && rest[i].state.active());
                }
            }
        }
        assert(active_in(u, c) == (active_in(t, c) && mentioned(s, c))) by {
            if active_in(u, c) {
                let i = choose|i: int|
                    0 <= i < u.len() && #[trigger] u[i].client == c && u[i].state.active();
                assert(u[i] == settle(t[i], s));
                assert(t[i].client == c && t[i].state.active());
            }
            if active_in(t, c) && mentioned(s, c) {
                let i = choose|i: int|
                    0 <= i < t.len() && #[trigger] t[i].client == c && t[i].state.active();
                assert(u[i] == settle(t[i], s));
                assert(u[i].client == c && u[i].state.active());
            }
        }
        assert(knows(u, c) == knows(t, c)) by {
            if knows(u, c) {
                let i = choose|i: int| 0 <= i < u.len() && #[trigger] u[i].client == c;
                assert(u[i] == settle(t[i], s));
                assert(t[i].client == c);
            }
            if knows(t, c) {
                let i = choose|i: int| 0 <= i < t.len() && #[trigger] t[i].client == c;
                assert(u[i] == settle(t[i], s));
                assert(u[i].client == c);
            }
        }
    }
}

/// A transition stands in a sequence exactly where it is counted there.
pub proof fn lemma_occurrences_contains(e: Seq<TransitionView>, x: TransitionView)
    ensures
        e.contains(x) <==> occurrences(e, x) > 0,
    decreases e.len(),
{
    if e.len() > 0 {
        let rest = e.drop_last();
        lemma_occurrences_contains(rest, x);
        if rest.contains(x) {
            let i = choose|i: int| 0 <= i < rest.len() && rest[i] == x;
            assert(e[i] == x);
        }
        if e.last() == x {
            assert(e[e.len() - 1] == x);
        }
        if e.contains(x) {
            let i = choose|i: int| 0 <= i < e.len() && e[i] == x;
            if i < e.len() - 1 {
                assert(rest[i] == x);
            }
        }
    }
}

/// A poll leaves the table with one record of each client at most.
pub proof fn lemma_poll_keeps_clients_distinct(t: Seq<ClientView>, s: Seq<Observation>)
    requires
        distinct_clients(t),
    ensures
        distinct_clients(after_present(t, s)),
        distinct_clients(table_after(t, s)),
{
    lemma_after_present_distinct(t, s);
    let m = after_present(t, s);
    let u = table_after(t, s);
    assert forall|i: int, j: int| 0 <= i < j < u.len() implies u[i].client != u[j].client by {
        assert(u[i] == settle(m[i], s));
        assert(u[j] == settle(m[j], s));
    }
}

/// No poll removes a record: after a poll the table has a record of every
/// client that it had one of before, of every client in the session list,
/// and of no other.
pub proof fn lemma_poll_keeps_records(t: Seq<ClientView>, s: Seq<Observation>, c: Seq<char>)
    requires
        distinct_clients(t),
    ensures
        knows(table_after(t, s), c) == (knows(t, c) || mentioned(s, c)),
{
    lemma_after_present_distinct(t, s);
    lemma_absence(after_present(t, s), s, c);
    lemma_present_knows(t, s, c);
}

proof fn lemma_present_knows(t: Seq<ClientView>, s: Seq<Observation>, c: Seq<char>)
    ensures
        knows(after_present(t, s), c) == (knows(t, c) || mentioned(s, c)),
    decreases s.len(),
{
    if s.len() > 0 {
        let rest = s.drop_last();
        let o = s.last();
        lemma_present_knows(t, rest, c);
        lemma_observe_activity(after_present(t, rest), o, c);
        assert(mentioned(s, c) == (mentioned(rest, c) || o.identity == c)) by {
            if mentioned(rest, c) {
                let j = choose|j: int| 0 <= j < rest.len() && #[trigger] rest[j].identity == c;
                assert(s[j].identity == c);
            }
            if o.identity == c {
                assert(s[s.len() - 1].identity == c);
            }
            if mentioned(s, c) {
                let j = choose|j: int| 0 <= j < s.len() && #[trigger] s[j].identity == c;
                if j < s.len() - 1 {
                    assert(rest[j].identity == c);
                }
            }
        }
    } else {
        assert(!mentioned(s, c));
    }
}

/// In every poll, the transitions of one client to connected, less its
/// transitions to not connected, are what the table gained: one where the
/// client became connected, minus one where it ceased to be, zero where
/// nothing changed.
pub proof fn lemma_poll_balance(t: Seq<ClientView>, s: Seq<Observation>, c: Seq<char>)
    requires
        distinct_clients(t),
    ensures
        occurrences(transitions(t, s), activated(c)) - occurrences(
            transitions(t, s),
            deactivated(c),
        ) == level(active_in(table_after(t, s), c)) - level(active_in(t, c)),
{
    let m = after_present(t, s);
    lemma_after_present_distinct(t, s);
    lemma_present_balance(t, s, c);
    lemma_absence(m, s, c);
    lemma_occurrences_concat(present_events(t, s), absence_events(m, s), activated(c));
    lemma_occurrences_concat(present_events(t, s), absence_events(m, s), deactivated(c));
    if !mentioned(s, c) {
        lemma_present_silent(t, s, c);
    }
}

/// A poll reports one transition of a client at most. This holds of a
/// client of which the session list has one entry at most, or several
/// that agree on whether the client is connected.
pub proof fn lemma_one_event_per_client(t: Seq<ClientView>, s: Seq<Observation>, c: Seq<char>)
    requires
        distinct_clients(t),
        agreeing(s, c),
    ensures
        events_about(transitions(t, s), c) <= 1,
{
    let m = after_present(t, s);
    lemma_after_present_distinct(t, s);
    lemma_absence(m, s, c);
    lemma_occurrences_concat(present_events(t, s), absence_events(m, s), activated(c));
    lemma_occurrences_concat(present_events(t, s), absence_events(m, s), deactivated(c));
    if mentioned(s, c) {
        lemma_present_once(t, s, c);
    } else {
        lemma_present_silent(t, s, c);
    }
}

/// A poll reports that a client is now connected exactly where the table
/// did not hold it as connected before (or not at all) and does so after,
/// and that a client is disconnected exactly where the table held it as
/// connected before and no longer does, be it that the session list shows it
/// in another state or that the list no longer has it. Each is reported
/// once. This holds of a client of which the session list has one entry at
/// most, or several that agree on whether the client is connected.
pub proof fn lemma_events_follow_transitions(t: Seq<ClientView>, s: Seq<Observation>, c: Seq<char>)
    requires
        distinct_clients(t),
        agreeing(s, c),
    ensures
        occurrences(transitions(t, s), activated(c)) == level(
            !active_in(t, c) && active_in(table_after(t, s), c),
        ),
        occurrences(transitions(t, s), deactivated(c)) == level(
            active_in(t, c) && !active_in(table_after(t, s), c),
        ),
        transitions(t, s).contains(activated(c)) <==> !active_in(t, c) && active_in(
            table_after(t, s),
            c,
        ),
        transitions(t, s).contains(deactivated(c)) <==> active_in(t, c) && !active_in(
            table_after(t, s),
            c,
        ),
{
    lemma_poll_balance(t, s, c);
    lemma_one_event_per_client(t, s, c);
    lemma_occurrences_contains(transitions(t, s), activated(c));
    lemma_occurrences_contains(transitions(t, s), deactivated(c));
}

/// A client that the table holds as connected and that the session list of
/// the next poll does not have is reported as disconnected, once, and the
/// poll reports nothing else of it; the table then holds it as
/// `Disconnected`.
pub proof fn lemma_absent_client_is_deactivated(
    t: Seq<ClientView>,
    s: Seq<Observation>,
    c: Seq<char>,
)
    requires
        distinct_clients(t),
        active_in(t, c),
        !mentioned(s, c),
    ensures
        occurrences(transitions(t, s), deactivated(c)) == 1,
        events_about(transitions(t, s), c) == 1,
        !active_in(table_after(t, s), c),
        forall|i: int|
            0 <= i < table_after(t, s).len() && #[trigger] table_after(t, s)[i].client == c
                ==> table_after(t, s)[i].state == SessionState::Disconnected,
        knows(table_after(t, s), c),
{
    let m = after_present(t, s);
    let u = table_after(t, s);
    lemma_after_present_distinct(t, s);
    lemma_present_silent(t, s, c);
    lemma_absence(m, s, c);
    lemma_occurrences_concat(present_events(t, s), absence_events(m, s), activated(c));
    lemma_occurrences_concat(present_events(t, s), absence_events(m, s), deactivated(c));
    lemma_poll_keeps_records(t, s, c);
    assert(knows(t, c)) by {
        let i = choose|i: int|
            0 <= i < t.len() && #[trigger] t[i].client == c && t[i].state.active();
        assert(t[i].client == c);
    }
    let a = choose|a: int| 0 <= a < m.len() && #[trigger] m[a].client == c && m[a].state.active();
    assert forall|i: int| 0 <= i < u.len() && #[trigger] u[i].client == c implies u[i].state
        == SessionState::Disconnected by {
        assert(u[i] == settle(m[i], s));
        assert(m[i].client == c);
        if i < a {
            assert(m[i].client != m[a].client);
        }
        if a < i {
            assert(m[a].client != m[i].client);
        }
        assert(lapsed(m[i], s));
    }
}

proof fn lemma_steady_prefix(s: Seq<Observation>)
    requires
        steady(s),
        s.len() > 0,
    ensures
        steady(s.drop_last()),
{
    let rest = s.drop_last();
    assert forall|i: int, j: int|
        0 <= i < j < rest.len() && #[trigger] rest[i].identity
            == #[trigger] rest[j].identity implies rest[i].state.active()
        == rest[j].state.active() by {
        assert(rest[i] == s[i]);
        assert(rest[j] == s[j]);
    }
}

/// The entries of a session list show nothing against a table that holds
/// every client of the list as the list says.
proof fn lemma_present_quiet(t: Seq<ClientView>, s: Seq<Observation>)
    requires
        steady(s),
        forall|j: int|
            0 <= j < s.len() ==> active_in(t, #[trigger] s[j].identity) == s[j].state.active(),
    ensures
        present_events(t, s) == Seq::<TransitionView>::empty(),
    decreases s.len(),
{
    if s.len() > 0 {
        let rest = s.drop_last();
        let o = s.last();
        let n = s.len() - 1;
        let before = after_present(t, rest);
        assert(o == s[n]);
        lemma_steady_prefix(s);
        assert forall|j: int| 0 <= j < rest.len() implies active_in(
            t,
            #[trigger] rest[j].identity,
        ) == rest[j].state.active() by {
            assert(rest[j] == s[j]);
        }
        lemma_present_quiet(t, rest);
        assert(active_in(before, o.identity) == o.state.active()) by {
            if mentioned(rest, o.identity) {
                let j = choose|j: int|
                    0 <= j < rest.len() && #[trigger] rest[j].identity == o.identity;
                assert(rest[j] == s[j]);
                assert(s[j].identity == s[n].identity);
                lemma_present_activity(t, rest, j);
            } else {
                lemma_present_silent(t, rest, o.identity);
                assert(active_in(t, s[n].identity) == s[n].state.active());
            }
        }
    }
}

/// No transition is reported of a table none of whose records is of a
/// connected client that the session list does not have.
proof fn lemma_absence_quiet(t: Seq<ClientView>, s: Seq<Observation>)
    requires
        forall|i: int| 0 <= i < t.len() ==> !lapsed(#[trigger] t[i], s),
    ensures
        absence_events(t, s) == Seq::<TransitionView>::empty(),
    decreases t.len(),
{
    if t.len() > 0 {
        let rest = t.drop_last();
        assert(t.last() == t[t.len() - 1]);
        assert forall|i: int| 0 <= i < rest.len() implies !lapsed(#[trigger] rest[i], s) by {
            assert(rest[i] == t[i]);
        }
        lemma_absence_quiet(rest, s);
    }
}

/// A session list that is taken a second time, right after the first,
/// shows no transition. This holds of a session list whose entries of one
/// client agree on whether the client is connected.
pub proof fn lemma_second_poll_is_silent(t: Seq<ClientView>, s: Seq<Observation>)
    requires
        distinct_clients(t),
        steady(s),
    ensures
        transitions(table_after(t, s), s) == Seq::<TransitionView>::empty(),
{
    let m = after_present(t, s);
    let u = table_after(t, s);
    lemma_poll_keeps_clients_distinct(t, s);
    assert forall|j: int| 0 <= j < s.len() implies active_in(u, #[trigger] s[j].identity)
        == s[j].state.active() by {
        lemma_present_activity(t, s, j);
        lemma_absence(m, s, s[j].identity);
        assert(mentioned(s, s[j].identity));
    }
    lemma_present_quiet(u, s);
    let w = after_present(u, s);
    assert forall|i: int| 0 <= i < w.len() implies !lapsed(#[trigger] w[i], s) by {
        let c = w[i].client;
        if lapsed(w[i], s) {
            assert(w[i].client == c && w[i].state.active());
            assert(active_in(w, c));
            lemma_present_silent(u, s, c);
            lemma_absence(m, s, c);
        }
    }
    lemma_absence_quiet(w, s);
    assert(transitions(u, s) =~= Seq::<TransitionView>::empty());
}

/// After a poll the record of a client in the session list is what the
/// last entry of that client says.
pub proof fn lemma_poll_stores_last_entry(
    t: Seq<ClientView>,
    s: Seq<Observation>,
    j: int,
    i: int,
)
    requires
        0 <= j < s.len(),
        forall|k: int| j < k < s.len() ==> (#[trigger] s[k]).identity != s[j].identity,
        0 <= i < table_after(t, s).len(),
        table_after(t, s)[i].client == s[j].identity,
    ensures
        table_after(t, s)[i] == record_of(s[j]),
{
    let m = after_present(t, s);
    assert(table_after(t, s)[i] == settle(m[i], s));
    assert(mentioned(s, s[j].identity));
    lemma_present_stores_last_entry(t, s, j, i);
}

proof fn lemma_present_stores_last_entry(t: Seq<ClientView>, s: Seq<Observation>, j: int, i: int)
    requires
        0 <= j < s.len(),
        forall|k: int| j < k < s.len() ==> (#[trigger] s[k]).identity != s[j].identity,
        0 <= i < after_present(t, s).len(),
        after_present(t, s)[i].client == s[j].identity,
    ensures
        after_present(t, s)[i] == record_of(s[j]),
    decreases s.len(),
{
    let rest = s.drop_last();
    let o = s.last();
    let n = s.len() - 1;
    let before = after_present(t, rest);
    let c = s[j].identity;
    assert(o == s[n]);
    if j == n {
        if knows(before, c) {
            assert(before[i].client == c || after_present(t, s)[i] == before[i]);
        } else {
            if i < before.len() {
                assert(after_present(t, s)[i] == before[i]);
                assert(before[i].client == c);
            }
        }
    } else {
        assert(o.identity != c);
        assert(rest[j] == s[j]);
        assert forall|k: int| j < k < rest.len() implies (#[trigger] rest[k]).identity
            != rest[j].identity by {
            assert(rest[k] == s[k]);
        }
        if knows(before, o.identity) {
            assert(after_present(t, s)[i] == before[i]);
        } else {
            assert(i < before.len());
            assert(after_present(t, s)[i] == before[i]);
        }
        lemma_present_stores_last_entry(t, rest, j, i);
    }
}

/// Where the entries of a session list show nothing against a table, the
/// table held every client of the list as each of its entries says.
proof fn lemma_quiet_means_agreement(t: Seq<ClientView>, s: Seq<Observation>)
    requires
        present_events(t, s).len() == 0,
    ensures
        forall|j: int|
            0 <= j < s.len() ==> active_in(t, #[trigger] s[j].identity) == s[j].state.active(),
        forall|j: int|
            0 <= j < s.len() ==> active_in(after_present(t, s), #[trigger] s[j].identity)
                == s[j].state.active(),
    decreases s.len(),
{
    if s.len() > 0 {
        let rest = s.drop_last();
        let o = s.last();
        let n = s.len() - 1;
        let before = after_present(t, rest);
        let after = after_present(t, s);
        assert(o == s[n]);
        assert(observed_event(before, o).is_none() && present_events(t, rest).len() == 0) by {
            if observed_event(before, o).is_some() {
                assert(present_events(t, s).len() == present_events(t, rest).len() + 1);
            }
        }
        lemma_quiet_means_agreement(t, rest);
        assert(active_in(before, o.identity) == o.state.active());
        assert forall|j: int| 0 <= j < s.len() implies active_in(t, #[trigger] s[j].identity)
            == s[j].state.active() && active_in(after, s[j].identity) == s[j].state.active() by {
            lemma_observe_activity(before, o, s[j].identity);
            if j < n {
                assert(rest[j] == s[j]);
                assert(active_in(t, rest[j].identity) == rest[j].state.active());
                assert(active_in(before, rest[j].identity) == rest[j].state.active());
            } else {
                if mentioned(rest, o.identity) {
                    let k = choose|k: int|
                        0 <= k < rest.len() && #[trigger] rest[k].identity == o.identity;
                    assert(rest[k] == s[k]);
                    assert(active_in(t, rest[k].identity) == rest[k].state.active());
                    assert(active_in(before, rest[k].identity) == rest[k].state.active());
                } else {
                    lemma_present_silent(t, rest, o.identity);
                }
            }
        }
    }
}

/// A session list that is taken a second time, right after the first,
/// shows a transition exactly where two of its entries of one client
/// disagree on whether the client is connected.
pub proof fn lemma_second_poll_silent_iff_steady(t: Seq<ClientView>, s: Seq<Observation>)
    requires
        distinct_clients(t),
    ensures
        transitions(table_after(t, s), s).len() == 0 <==> steady(s),
{
    let u = table_after(t, s);
    if steady(s) {
        lemma_second_poll_is_silent(t, s);
    }
    if transitions(u, s).len() == 0 {
        assert(present_events(u, s).len() == 0);
        lemma_quiet_means_agreement(u, s);
        assert forall|i: int, j: int|
            0 <= i < j < s.len() && #[trigger] s[i].identity
                == #[trigger] s[j].identity implies s[i].state.active()
            == s[j].state.active() by {
            assert(active_in(u, s[i].identity) == s[i].state.active());
            assert(active_in(u, s[j].identity) == s[j].state.active());
        }
    }
}

/// The table after the polls that brought the session lists `lists`, one
/// after the other.
pub open spec fn table_after_polls(t: Seq<ClientView>, lists: Seq<Seq<Observation>>) -> Seq<
    ClientView,
>
    decreases lists.len(),
{
    if lists.len() == 0 {
        t
    } else {
        table_after(table_after_polls(t, lists.drop_last()), lists.last())
    }
}

/// Whatever session lists a table is fed, from the empty table on, it has
/// one record of each client at most: what this module says of a poll of
/// such a table holds of every poll in every sequence of polls.
pub proof fn lemma_polls_keep_clients_distinct(lists: Seq<Seq<Observation>>)
    ensures
        distinct_clients(table_after_polls(Seq::empty(), lists)),
    decreases lists.len(),
{
    if lists.len() > 0 {
        lemma_polls_keep_clients_distinct(lists.drop_last());
        lemma_poll_keeps_clients_distinct(
            table_after_polls(Seq::empty(), lists.drop_last()),
            lists.last(),
        );
    }
}

} // verus!
