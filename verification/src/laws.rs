//! The relay's laws, stated over the abstract state and proved once and
//! for all: what room membership is after any sequence of joins and
//! leaves, what teardown hides from broadcasts, which operations are
//! idempotent, the per-recipient delivery order, and heartbeat eviction.

use vstd::prelude::*;

use crate::server::lemma_filter_idempotent;
use crate::server::lemma_filter_mem;
use crate::server::lemma_inv_join;
use crate::server::lemma_inv_leave;
use crate::server::lemma_push_mem;
use crate::server::lemma_targets_mem;
use crate::server::lemma_targets_no_dup;
use crate::server::ne_pred;
use crate::server::ServerView;
use crate::session::ChatSession;
use crate::session::CLIENT_TIMEOUT_MS;

verus! {

/// One room-registry operation.
pub enum RoomOp {
    Join { room: Seq<char>, id: usize },
    Leave { room: Seq<char>, id: usize },
}

/// The state one operation leaves behind.
pub open spec fn apply_room_op<H>(s: ServerView<H>, op: RoomOp) -> ServerView<H> {
    match op {
        RoomOp::Join { room, id } => s.after_join(room, id),
        RoomOp::Leave { room, id } => s.after_leave(room, id),
    }
}

/// The state a whole sequence of operations leaves behind, applied left to
/// right.
pub open spec fn apply_room_ops<H>(s: ServerView<H>, ops: Seq<RoomOp>) -> ServerView<H>
    decreases ops.len(),
{
    if ops.len() == 0 {
        s
    } else {
        apply_room_op(apply_room_ops(s, ops.drop_last()), ops.last())
    }
}

/// A sequence of operations as the relay itself issues them: every join
/// carries an identifier that registration just handed out, so it is in no
/// room yet and below the counter.
pub open spec fn room_ops_valid<H>(s: ServerView<H>, ops: Seq<RoomOp>) -> bool
    decreases ops.len(),
{
    if ops.len() == 0 {
        true
    } else {
        let prev = apply_room_ops(s, ops.drop_last());
        room_ops_valid(s, ops.drop_last()) && match ops.last() {
            RoomOp::Join { room: _, id } => !prev.in_some_room(id) && id < prev.counter,
            RoomOp::Leave { .. } => true,
        }
    }
}

/// Whether, after `ops`, the identifier has been joined to `room` and not
/// left it since — the last operation touching this membership decides,
/// and with no such operation the starting state does.
pub open spec fn joined_not_left<H>(
    s: ServerView<H>,
    ops: Seq<RoomOp>,
    room: Seq<char>,
    id: usize,
) -> bool
    decreases ops.len(),
{
    if ops.len() == 0 {
        s.members(room).contains(id)
    } else {
        match ops.last() {
            RoomOp::Join { room: r, id: x } => {
                if r == room && x == id {
                    true
                } else {
                    joined_not_left(s, ops.drop_last(), room, id)
                }
            }
            RoomOp::Leave { room: r, id: x } => {
                if r == room && x == id {
                    false
                } else {
                    joined_not_left(s, ops.drop_last(), room, id)
                }
            }
        }
    }
}

/// For every sequence of join and leave operations, at every point a
/// room's member list holds no identifier twice and holds exactly the
/// identifiers joined to it and not yet gone from it.
pub proof fn lemma_members_after_room_ops<H>(s: ServerView<H>, ops: Seq<RoomOp>, room: Seq<char>)
    requires
        s.inv(),
        room_ops_valid(s, ops),
    ensures
        apply_room_ops(s, ops).inv(),
        apply_room_ops(s, ops).members(room).no_duplicates(),
        forall|id: usize| #[trigger] apply_room_ops(s, ops).members(room).contains(id)
            <==> joined_not_left(s, ops, room, id),
    decreases ops.len(),
{
    if ops.len() > 0 {
        let prev = apply_room_ops(s, ops.drop_last());
        let cur = apply_room_ops(s, ops);
        lemma_members_after_room_ops(s, ops.drop_last(), room);
        match ops.last() {
            RoomOp::Join { room: r, id: x } => {
                lemma_inv_join(prev, r, x);
                assert forall|id: usize| #[trigger] cur.members(room).contains(id)
                    <==> joined_not_left(s, ops, room, id) by {
                    if r == room {
                        assert(cur.members(room) == prev.members(room).push(x));
                        lemma_push_mem(prev.members(room), x, id);
                        if id != x {
                        } else {
                            assert(cur.members(room).contains(x)) by {
                                assert(cur.members(room).last() == x);
                            }
                        }
                    } else {
                        assert(cur.members(room) == prev.members(room));
                        if id == x && prev.members(room).contains(x) {
                            assert(prev.in_some_room(x));
                        }
                    }
                }
            }
            RoomOp::Leave { room: r, id: x } => {
                lemma_inv_leave(prev, r, x);
                assert forall|id: usize| #[trigger] cur.members(room).contains(id)
                    <==> joined_not_left(s, ops, room, id) by {
                    if r == room {
                        if prev.rooms.contains_key(room) {
                            assert(cur.members(room) == prev.rooms[room].filter(ne_pred(x)));
                            lemma_filter_mem(prev.rooms[room], ne_pred(x), id);
                            assert(prev.rooms[room] == prev.members(room));
                        } else {
                            assert(cur.members(room) == prev.members(room));
                            assert(prev.members(room) =~= Seq::<usize>::empty());
                        }
                    } else {
                        assert(cur.members(room) == prev.members(room));
                    }
                }
            }
        }
    }
}

/// After `Unregister(id)`, `Lookup(id)` is absent, and a broadcast to any
/// room — one that previously held `id` included — silently excludes it.
pub proof fn lemma_unregister_excludes<H>(
    s: ServerView<H>,
    id: usize,
    room: Seq<char>,
    exclude: Option<usize>,
)
    ensures
        !s.after_unregister(id).sessions.contains_key(id),
        !s.after_unregister(id).targets(room, exclude).contains(id),
{
    lemma_targets_mem(s.after_unregister(id), room, exclude, id);
}

/// Leaving a room twice in a row leaves the same state as leaving it once.
pub proof fn lemma_leave_idempotent<H>(s: ServerView<H>, room: Seq<char>, id: usize)
    ensures
        s.after_leave(room, id).after_leave(room, id) == s.after_leave(room, id),
{
    let t = s.after_leave(room, id);
    if s.rooms.contains_key(room) {
        lemma_filter_idempotent(s.rooms[room], ne_pred(id));
        assert(t.after_leave(room, id).rooms =~= t.rooms);
        assert(t.after_leave(room, id) =~= t);
    }
}

/// Unregistering twice in a row leaves the same state as unregistering
/// once.
pub proof fn lemma_unregister_idempotent<H>(s: ServerView<H>, id: usize)
    ensures
        s.after_unregister(id).after_unregister(id) == s.after_unregister(id),
{
    assert(s.sessions.remove(id).remove(id) =~= s.sessions.remove(id));
    assert(s.after_unregister(id).after_unregister(id) =~= s.after_unregister(id));
}

/// The outbound frames a run of broadcasts to one room produces, in the
/// order they are pushed: the whole delivery plan of the first payload,
/// then of the second, and so on.
pub open spec fn deliveries<H>(
    s: ServerView<H>,
    room: Seq<char>,
    msgs: Seq<Seq<char>>,
    exclude: Option<usize>,
) -> Seq<(usize, Seq<char>)>
    decreases msgs.len(),
{
    if msgs.len() == 0 {
        Seq::empty()
    } else {
        deliveries(s, room, msgs.drop_last(), exclude) + s.targets(room, exclude).map_values(
            |t: usize| (t, msgs.last()),
        )
    }
}

/// Two broadcasts issued in sequence reach every recipient of the room in
/// issue order: each plan recipient receives the first payload exactly
/// once, the second exactly once, and the first strictly earlier.
pub proof fn lemma_broadcast_order<H>(
    s: ServerView<H>,
    room: Seq<char>,
    m1: Seq<char>,
    m2: Seq<char>,
    exclude: Option<usize>,
    a: usize,
)
    requires
        s.inv(),
        s.targets(room, exclude).contains(a),
    ensures
        ({
            let d = deliveries(s, room, seq![m1, m2], exclude);
            exists|i: int, j: int|
                {
                    &&& 0 <= i < j < d.len()
                    &&& d[i] == (a, m1)
                    &&& d[j] == (a, m2)
                    &&& forall|k: int| 0 <= k < d.len() && (#[trigger] d[k]).0 == a ==> k == i
                        || k == j
                }
        }),
{
    let plan = s.targets(room, exclude);
    lemma_targets_no_dup(s, room, exclude);
    let d = deliveries(s, room, seq![m1, m2], exclude);
    let d1 = deliveries(s, room, seq![m1], exclude);
    let d0 = deliveries(s, room, Seq::<Seq<char>>::empty(), exclude);
    assert(seq![m1, m2].drop_last() =~= seq![m1]);
    assert(seq![m1].drop_last() =~= Seq::<Seq<char>>::empty());
    assert(d0 =~= Seq::<(usize, Seq<char>)>::empty());
    assert(seq![m1].last() == m1);
    assert(seq![m1, m2].last() == m2);
    assert(d1.len() == plan.len());
    assert(d.len() == 2 * plan.len());
    assert forall|k: int| 0 <= k < plan.len() implies #[trigger] d1[k] == (plan[k], m1) by {
        assert(d1[k] == plan.map_values(|t: usize| (t, seq![m1].last()))[k]);
    }
    assert forall|k: int| 0 <= k < d.len() implies #[trigger] d[k] == if k < plan.len() {
        (plan[k], m1)
    } else {
        (plan[k - plan.len()], m2)
    } by {
        if k < plan.len() {
            assert(d[k] == d1[k]);
        } else {
            assert(d[k] == plan.map_values(|t: usize| (t, seq![m1, m2].last()))[k - plan.len()]);
        }
    }
    let i0 = choose|i: int| 0 <= i < plan.len() && plan[i] == a;
    let i = i0;
    let j = plan.len() as int + i0;
    assert(d[i] == (a, m1));
    assert(d[j] == (a, m2));
    assert forall|k: int| 0 <= k < d.len() && (#[trigger] d[k]).0 == a implies k == i || k == j by {
        if k < plan.len() {
            assert(d[k].0 == plan[k]);
            assert(plan[k] == a && plan[i0] == a && k != i0 ==> false);
        } else {
            let k2 = k - plan.len();
            assert(d[k].0 == plan[k2]);
            assert(plan[k2] == a && plan[i0] == a && k2 != i0 ==> false);
        }
    }
    assert(0 <= i < j < d.len() && d[i] == (a, m1) && d[j] == (a, m2) && forall|k: int|
        0 <= k < d.len() && (#[trigger] d[k]).0 == a ==> k == i || k == j);
}

/// A connection silent for longer than the timeout window is expired by
/// the very next heartbeat probe, with no inbound frame needed, and its
/// teardown removes it from the connection registry and from every room.
pub proof fn lemma_silent_session_evicted<H>(srv: ServerView<H>, sess: ChatSession, now: u64)
    requires
        srv.inv(),
        sess.state is Active,
        sess.hb <= now,
        now - sess.hb > CLIENT_TIMEOUT_MS,
        forall|r: Seq<char>| #[trigger] srv.members(r).contains(sess.id) ==> r == sess.room@,
    ensures
        sess.spec_expired(now),
        !srv.after_disconnect(sess.id, sess.room@).sessions.contains_key(sess.id),
        forall|r: Seq<char>|
            !(#[trigger] srv.after_disconnect(sess.id, sess.room@).members(r).contains(sess.id)),
{
    let t = srv.after_disconnect(sess.id, sess.room@);
    let u = srv.after_unregister(sess.id);
    assert forall|r: Seq<char>| !(#[trigger] t.members(r).contains(sess.id)) by {
        if r == sess.room@ {
            if srv.rooms.contains_key(r) {
                assert(t.members(r) == u.rooms[r].filter(ne_pred(sess.id)));
                lemma_filter_mem(u.rooms[r], ne_pred(sess.id), sess.id);
            } else {
                assert(t.members(r) =~= Seq::<usize>::empty());
            }
        } else {
            assert(t.members(r) == srv.members(r));
        }
    }
}

/// Connecting keeps the registries consistent: every room member still has
/// a live registry entry.
pub proof fn lemma_connect_keeps_consistent<H>(s: ServerView<H>, handle: H, room: Seq<char>)
    requires
        s.consistent(),
        s.counter < usize::MAX,
    ensures
        s.after_connect(handle, room).consistent(),
{
    let t = s.after_connect(handle, room);
    assert forall|r: Seq<char>, id: usize| #[trigger] t.members(r).contains(id)
        implies t.sessions.contains_key(id) by {
        if r == room {
            assert(t.members(r) == s.members(room).push(s.counter));
            lemma_push_mem(s.members(room), s.counter, id);
        } else {
            assert(t.members(r) == s.members(r));
        }
    }
}

/// Disconnecting keeps the registries consistent, the departing
/// connection being a member of its own room at most.
pub proof fn lemma_disconnect_keeps_consistent<H>(s: ServerView<H>, id: usize, room: Seq<char>)
    requires
        s.consistent(),
        forall|r: Seq<char>| #[trigger] s.members(r).contains(id) ==> r == room,
    ensures
        s.after_disconnect(id, room).consistent(),
{
    let t = s.after_disconnect(id, room);
    let u = s.after_unregister(id);
    assert forall|r: Seq<char>, x: usize| #[trigger] t.members(r).contains(x)
        implies t.sessions.contains_key(x) by {
        if r == room && s.rooms.contains_key(room) {
            assert(t.members(r) == u.rooms[r].filter(ne_pred(id)));
            lemma_filter_mem(u.rooms[r], ne_pred(id), x);
            assert(s.members(r).contains(x));
        } else {
            assert(t.members(r) == s.members(r));
        }
    }
}

} // verus!
