//! What holds of every cycle of polls: the servers do not affect each
//! other, and a failed poll takes nothing from the others.

use vstd::prelude::*;
use crate::registry::{
    clients_of, cycle_messages, has_server, poll_messages, registered, registry_after_cycle,
    registry_after_poll, well_formed, PollView, ServerView,
};

verus! {

/// A cycle can be taken in two parts: the second part starts from the
/// registry as the first part left it, and the messages of the parts follow
/// each other.
pub proof fn lemma_cycle_in_parts(r: Seq<ServerView>, a: Seq<PollView>, b: Seq<PollView>)
    ensures
        registry_after_cycle(r, a + b) == registry_after_cycle(registry_after_cycle(r, a), b),
        cycle_messages(r, a + b) == cycle_messages(r, a) + cycle_messages(
            registry_after_cycle(r, a),
            b,
        ),
    decreases b.len(),
{
    if b.len() == 0 {
        assert(a + b =~= a);
        assert(cycle_messages(r, a) + Seq::<Seq<char>>::empty() =~= cycle_messages(r, a));
    } else {
        lemma_cycle_in_parts(r, a, b.drop_last());
        assert((a + b).drop_last() =~= a + b.drop_last());
        assert((a + b).last() == b.last());
        let mid = registry_after_cycle(r, a);
        assert(cycle_messages(r, a + b) =~= cycle_messages(r, a) + cycle_messages(mid, b));
    }
}

/// A failed poll takes nothing from the other polls of its cycle: with it
/// or without it, the cycle gives the same messages and leaves the same
/// registry.
pub proof fn lemma_failed_poll_changes_nothing(
    r: Seq<ServerView>,
    a: Seq<PollView>,
    failed: PollView,
    b: Seq<PollView>,
)
    requires
        failed.sessions.is_none(),
    ensures
        cycle_messages(r, a.push(failed) + b) == cycle_messages(r, a + b),
        registry_after_cycle(r, a.push(failed) + b) == registry_after_cycle(r, a + b),
{
    lemma_cycle_in_parts(r, a.push(failed), b);
    lemma_cycle_in_parts(r, a, b);
    assert(a.push(failed).drop_last() =~= a);
    assert(a.push(failed).last() == failed);
    assert(cycle_messages(r, a.push(failed)) =~= cycle_messages(r, a));
}

/// What a poll of one server brings does not depend on what a poll of
/// another server brought before it, be it a session list or a failure: the
/// table of the server is the same, and so are the messages.
pub proof fn lemma_other_server_does_not_matter(r: Seq<ServerView>, other: PollView, p: PollView)
    requires
        well_formed(r),
        has_server(r, p.server),
        other.server != p.server,
    ensures
        clients_of(registry_after_poll(r, other), p.server) == clients_of(r, p.server),
        poll_messages(registry_after_poll(r, other), p) == poll_messages(r, p),
{
    let u = registry_after_poll(r, other);
    if other.sessions.is_some() {
        let k = choose|i: int| 0 <= i < r.len() && #[trigger] r[i].name == p.server;
        assert forall|i: int| 0 <= i < r.len() implies (#[trigger] u[i]).name == r[i].name by {}
        assert(u[k].name == p.server);
        let n = choose|i: int| 0 <= i < u.len() && #[trigger] u[i].name == p.server;
        assert(r[n].name == p.server);
        if n < k {
            assert(r[n].name != r[k].name);
        }
        if k < n {
            assert(r[k].name != r[n].name);
        }
        assert(u[k] == r[k]);
    }
}

/// A poll changes the table of its own server only.
pub proof fn lemma_poll_leaves_other_tables(r: Seq<ServerView>, p: PollView, i: int)
    requires
        0 <= i < r.len(),
        r[i].name != p.server,
    ensures
        registry_after_poll(r, p).len() == r.len(),
        registry_after_poll(r, p)[i] == r[i],
{
}

/// Registering a server a second time changes nothing.
pub proof fn lemma_register_twice(r: Seq<ServerView>, name: Seq<char>)
    ensures
        has_server(registered(r, name), name),
        registered(registered(r, name), name) == registered(r, name),
{
    if !has_server(r, name) {
        assert(registered(r, name)[r.len() as int].name == name);
    }
}

} // verus!
