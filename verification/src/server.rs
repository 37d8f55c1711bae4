//! The relay's shared state: the connection registry (identifier to delivery
//! handle), the room registry (room name to member identifiers), and the
//! broadcast engine that turns a room name and a payload into a delivery
//! plan. The delivery handle type `H` is an opaque capability: the relay
//! stores and hands it back, it never looks inside.
//!
//! The model is a pair of maps — `sessions: Map<usize, H>` and
//! `rooms: Map<Seq<char>, Seq<usize>>` — together with the next fresh
//! identifier. Every operation states exactly how it moves that model.

use vstd::prelude::*;

verus! {

/// One outbound frame of the broadcast plan: the payload a room member is
/// to receive, tagged with the room it came from.
pub struct BroadcastMessage {
    pub room: String,
    pub message: String,
}

/// Abstract state of the relay.
#[verifier::ext_equal]
pub struct ServerView<H> {
    /// Live connections: identifier to delivery handle.
    pub sessions: Map<usize, H>,
    /// Room name to the identifiers joined to it, in join order.
    pub rooms: Map<Seq<char>, Seq<usize>>,
    /// The next identifier to hand out; every identifier ever handed out is
    /// below it.
    pub counter: usize,
}

impl<H> ServerView<H> {
    /// The members of a room; an absent room has none (an empty room and a
    /// nonexistent one behave identically).
    pub open spec fn members(self, room: Seq<char>) -> Seq<usize> {
        if self.rooms.contains_key(room) {
            self.rooms[room]
        } else {
            Seq::empty()
        }
    }

    /// Whether `id` is a member of any room.
    pub open spec fn in_some_room(self, id: usize) -> bool {
        exists|r: Seq<char>| #[trigger] self.members(r).contains(id)
    }

    /// The state invariant: no room holds an identifier twice, no identifier
    /// sits in two rooms, and every identifier seen anywhere is below the
    /// freshness counter.
    pub open spec fn inv(self) -> bool {
        &&& forall|r: Seq<char>| (#[trigger] self.members(r)).no_duplicates()
        &&& forall|r1: Seq<char>, r2: Seq<char>, id: usize|
            #[trigger] self.members(r1).contains(id) && #[trigger] self.members(r2).contains(id)
                ==> r1 == r2
        &&& forall|id: usize| #[trigger] self.sessions.contains_key(id) ==> id < self.counter
        &&& forall|r: Seq<char>, id: usize|
            #[trigger] self.members(r).contains(id) ==> id < self.counter
    }

    /// Every room member has a live registry entry (no stale identifiers).
    pub open spec fn consistent(self) -> bool {
        forall|r: Seq<char>, id: usize|
            #[trigger] self.members(r).contains(id) ==> self.sessions.contains_key(id)
    }

    /// Registration: the freshly allocated identifier is the counter, which
    /// then moves past it.
    pub open spec fn after_register(self, handle: H) -> ServerView<H> {
        ServerView {
            sessions: self.sessions.insert(self.counter, handle),
            rooms: self.rooms,
            counter: (self.counter + 1) as usize,
        }
    }

    /// Removal from the connection registry; removing an absent identifier
    /// changes nothing.
    pub open spec fn after_unregister(self, id: usize) -> ServerView<H> {
        ServerView { sessions: self.sessions.remove(id), rooms: self.rooms, counter: self.counter }
    }

    /// Joining a room appends the identifier to its member list, creating
    /// the room if absent.
    pub open spec fn after_join(self, room: Seq<char>, id: usize) -> ServerView<H> {
        ServerView {
            sessions: self.sessions,
            rooms: self.rooms.insert(room, self.members(room).push(id)),
            counter: self.counter,
        }
    }

    /// Leaving a room drops the identifier from its member list; an absent
    /// room, or an absent identifier, is left as it stands.
    pub open spec fn after_leave(self, room: Seq<char>, id: usize) -> ServerView<H> {
        if self.rooms.contains_key(room) {
            ServerView {
                sessions: self.sessions,
                rooms: self.rooms.insert(room, self.rooms[room].filter(ne_pred(id))),
                counter: self.counter,
            }
        } else {
            self
        }
    }

    /// One connection arriving: registration plus joining its room, as one
    /// step.
    pub open spec fn after_connect(self, handle: H, room: Seq<char>) -> ServerView<H> {
        self.after_register(handle).after_join(room, self.counter)
    }

    /// One connection going away: removal from the registry and from its
    /// room, as one step.
    pub open spec fn after_disconnect(self, id: usize, room: Seq<char>) -> ServerView<H> {
        self.after_unregister(id).after_leave(room, id)
    }

    /// The delivery plan of a broadcast: the room's members, in join order,
    /// that are live in the connection registry and not the excluded sender.
    pub open spec fn targets(self, room: Seq<char>, exclude: Option<usize>) -> Seq<usize> {
        self.members(room).filter(target_pred(self, exclude))
    }
}

/// Everything but `id`: the predicate a departing identifier is filtered
/// out with.
pub open spec fn ne_pred(id: usize) -> spec_fn(usize) -> bool {
    |x: usize| x != id
}

/// A broadcast recipient: live in the connection registry and not the
/// excluded sender.
pub open spec fn target_pred<H>(s: ServerView<H>, exclude: Option<usize>) -> spec_fn(
    usize,
) -> bool {
    |x: usize| s.sessions.contains_key(x) && exclude != Some(x)
}

/// Registration preserves the state invariant.
proof fn lemma_inv_register<H>(s: ServerView<H>, handle: H)
    requires
        s.inv(),
        s.counter < usize::MAX,
    ensures
        s.after_register(handle).inv(),
{
    let t = s.after_register(handle);
    assert forall|r: Seq<char>| (#[trigger] t.members(r)).no_duplicates() by {
        assert(t.members(r) == s.members(r));
    }
    assert forall|r1: Seq<char>, r2: Seq<char>, id: usize|
        #[trigger] t.members(r1).contains(id) && #[trigger] t.members(r2).contains(id)
        implies r1 == r2 by {
        assert(t.members(r1) == s.members(r1));
        assert(t.members(r2) == s.members(r2));
    }
    assert forall|r: Seq<char>, id: usize|
        #[trigger] t.members(r).contains(id) implies id < t.counter by {
        assert(t.members(r) == s.members(r));
    }
}

/// Removal from the connection registry preserves the state invariant.
proof fn lemma_inv_unregister<H>(s: ServerView<H>, id: usize)
    requires
        s.inv(),
    ensures
        s.after_unregister(id).inv(),
{
    let t = s.after_unregister(id);
    assert forall|r: Seq<char>| (#[trigger] t.members(r)).no_duplicates() by {
        assert(t.members(r) == s.members(r));
    }
    assert forall|r1: Seq<char>, r2: Seq<char>, x: usize|
        #[trigger] t.members(r1).contains(x) && #[trigger] t.members(r2).contains(x)
        implies r1 == r2 by {
        assert(t.members(r1) == s.members(r1));
        assert(t.members(r2) == s.members(r2));
    }
    assert forall|r: Seq<char>, x: usize|
        #[trigger] t.members(r).contains(x) implies x < t.counter by {
        assert(t.members(r) == s.members(r));
    }
}

/// What a pushed sequence holds: the old elements and the new one.
pub proof fn lemma_push_mem<A>(s: Seq<A>, x: A, y: A)
    ensures
        s.push(x).contains(y) <==> s.contains(y) || y == x,
{
    if s.push(x).contains(y) {
        let i = choose|i: int| 0 <= i < s.push(x).len() && s.push(x)[i] == y;
        if i < s.len() {
            assert(s[i] == y);
        }
    }
    if s.contains(y) {
        let i = choose|i: int| 0 <= i < s.len() && s[i] == y;
        assert(s.push(x)[i] == y);
    }
    assert(s.push(x)[s.len() as int] == x);
}

/// What a sequence's `filter` holds: exactly the elements of the original
/// that satisfy the predicate.
pub proof fn lemma_filter_mem<A>(s: Seq<A>, pred: spec_fn(A) -> bool, x: A)
    ensures
        s.filter(pred).contains(x) <==> s.contains(x) && pred(x),
    decreases s.len(),
{
    reveal(Seq::filter);
    if s.len() > 0 {
        lemma_filter_mem(s.drop_last(), pred, x);
        assert(s.contains(x) <==> s.drop_last().contains(x) || s.last() == x) by {
            if s.contains(x) {
                let i = choose|i: int| 0 <= i < s.len() && s[i] == x;
                if i < s.len() - 1 {
                    assert(s.drop_last()[i] == x);
                }
            }
            if s.drop_last().contains(x) {
                let i = choose|i: int| 0 <= i < s.drop_last().len() && s.drop_last()[i] == x;
                assert(s[i] == x);
            }
        }
        if s.last() == x && pred(x) {
            assert(s.filter(pred).last() == x);
        }
        if s.filter(pred).contains(x) {
            if pred(s.last()) {
                let f = s.drop_last().filter(pred);
                let i = choose|i: int| 0 <= i < s.filter(pred).len() && s.filter(pred)[i] == x;
                if i < f.len() {
                    assert(f[i] == x);
                }
            }
        }
    }
}

/// `filter` keeps a duplicate-free sequence duplicate-free.
pub proof fn lemma_filter_no_dup<A>(s: Seq<A>, pred: spec_fn(A) -> bool)
    requires
        s.no_duplicates(),
    ensures
        s.filter(pred).no_duplicates(),
    decreases s.len(),
{
    reveal(Seq::filter);
    if s.len() > 0 {
        let dl = s.drop_last();
        assert(dl.no_duplicates());
        lemma_filter_no_dup(dl, pred);
        if pred(s.last()) {
            assert(!dl.contains(s.last())) by {
                if dl.contains(s.last()) {
                    let i = choose|i: int| 0 <= i < dl.len() && dl[i] == s.last();
                    assert(s[i] == s.last());
                }
            }
            lemma_filter_mem(dl, pred, s.last());
            let f = dl.filter(pred);
            assert forall|i: int, j: int|
                0 <= i < f.push(s.last()).len() && 0 <= j < f.push(s.last()).len() && i != j
                implies f.push(s.last())[i] != f.push(s.last())[j] by {
                if i < f.len() && j < f.len() {
                } else if i == f.len() {
                    assert(f.contains(f[j]));
                } else if j == f.len() {
                    assert(f.contains(f[i]));
                }
            }
        }
    }
}

/// The map an association list denotes: later entries shadow earlier ones
/// (the registry keeps its keys distinct, so shadowing never happens).
spec fn sessions_map<H>(s: Seq<(usize, H)>) -> Map<usize, H>
    decreases s.len(),
{
    if s.len() == 0 {
        Map::empty()
    } else {
        sessions_map(s.drop_last()).insert(s.last().0, s.last().1)
    }
}

/// The map the room list denotes, by room-name view.
spec fn rooms_map(s: Seq<(String, Vec<usize>)>) -> Map<Seq<char>, Seq<usize>>
    decreases s.len(),
{
    if s.len() == 0 {
        Map::empty()
    } else {
        rooms_map(s.drop_last()).insert(s.last().0@, s.last().1@)
    }
}

/// The relay: both registries and the freshness counter, behind the
/// abstract `ServerView`.
pub struct ChatServer<H> {
    sessions: Vec<(usize, H)>,
    rooms: Vec<(String, Vec<usize>)>,
    counter: usize,
}

impl<H> View for ChatServer<H> {
    type V = ServerView<H>;

    closed spec fn view(&self) -> ServerView<H> {
        ServerView {
            sessions: sessions_map(self.sessions@),
            rooms: rooms_map(self.rooms@),
            counter: self.counter,
        }
    }
}

spec fn distinct_session_keys<H>(s: Seq<(usize, H)>) -> bool {
    forall|i: int, j: int|
        0 <= i < j < s.len() ==> (#[trigger] s[i]).0 != (#[trigger] s[j]).0
}

spec fn distinct_room_keys(s: Seq<(String, Vec<usize>)>) -> bool {
    forall|i: int, j: int|
        0 <= i < j < s.len() ==> (#[trigger] s[i]).0@ != (#[trigger] s[j]).0@
}

proof fn lemma_sessions_map_index<H>(s: Seq<(usize, H)>, i: int)
    requires
        distinct_session_keys(s),
        0 <= i < s.len(),
    ensures
        sessions_map(s).contains_key(s[i].0),
        sessions_map(s)[s[i].0] == s[i].1,
    decreases s.len(),
{
    if i < s.len() - 1 {
        assert(distinct_session_keys(s.drop_last())) by {
            assert(forall|k: int| 0 <= k < s.len() - 1 ==> s.drop_last()[k] == s[k]);
        }
        assert(s.drop_last()[i] == s[i]);
        lemma_sessions_map_index(s.drop_last(), i);
        assert(s.last().0 != s[i].0);
    }
}

proof fn lemma_sessions_map_absent<H>(s: Seq<(usize, H)>, k: usize)
    requires
        forall|i: int| 0 <= i < s.len() ==> (#[trigger] s[i]).0 != k,
    ensures
        !sessions_map(s).contains_key(k),
    decreases s.len(),
{
    if s.len() > 0 {
        assert(forall|i: int|
            0 <= i < s.drop_last().len() ==> (#[trigger] s.drop_last()[i]).0 != k);
        lemma_sessions_map_absent(s.drop_last(), k);
        assert(s.last().0 != k);
    }
}

proof fn lemma_sessions_map_key_index<H>(s: Seq<(usize, H)>, k: usize)
    requires
        sessions_map(s).contains_key(k),
    ensures
        exists|i: int| 0 <= i < s.len() && (#[trigger] s[i]).0 == k,
    decreases s.len(),
{
    if s.len() > 0 {
        if s.last().0 == k {
            assert(s[s.len() - 1].0 == k);
        } else {
            lemma_sessions_map_key_index(s.drop_last(), k);
            let i = choose|i: int| 0 <= i < s.drop_last().len() && (#[trigger] s.drop_last()[i]).0 == k;
            assert(s[i].0 == k);
        }
    }
}

/// Removing the entry at index `i` removes exactly its key from the map.
proof fn lemma_sessions_map_remove<H>(s: Seq<(usize, H)>, i: int)
    requires
        distinct_session_keys(s),
        0 <= i < s.len(),
    ensures
        sessions_map(s.remove(i)) == sessions_map(s).remove(s[i].0),
    decreases s.len(),
{
    if i == s.len() - 1 {
        assert(s.remove(i) =~= s.drop_last());
        assert(forall|j: int|
            0 <= j < s.drop_last().len() ==> (#[trigger] s.drop_last()[j]).0 != s[i].0);
        lemma_sessions_map_absent(s.drop_last(), s[i].0);
        assert(sessions_map(s.drop_last()) =~= sessions_map(s).remove(s[i].0));
    } else {
        assert(distinct_session_keys(s.drop_last())) by {
            assert(forall|k: int| 0 <= k < s.len() - 1 ==> s.drop_last()[k] == s[k]);
        }
        lemma_sessions_map_remove(s.drop_last(), i);
        assert(s.remove(i).drop_last() =~= s.drop_last().remove(i));
        assert(s.remove(i).last() == s.last());
        assert(s.drop_last()[i] == s[i]);
        assert(s.last().0 != s[i].0);
        assert(sessions_map(s.drop_last()).remove(s[i].0).insert(s.last().0, s.last().1)
            =~= sessions_map(s.drop_last()).insert(s.last().0, s.last().1).remove(s[i].0));
    }
}

impl<H> ChatServer<H> {
    /// Well-formedness: the association lists carry each key once, and the
    /// abstract state satisfies its invariant.
    pub closed spec fn wf(&self) -> bool {
        &&& distinct_session_keys(self.sessions@)
        &&& distinct_room_keys(self.rooms@)
        &&& self@.inv()
    }

    /// The state invariant of the abstract view holds of every well-formed
    /// relay.
    pub proof fn inv_holds(&self)
        requires
            self.wf(),
        ensures
            self@.inv(),
    {
    }

    /// A relay with no connections, no rooms, and identifiers starting
    /// at zero.
    pub fn new() -> (s: Self)
        ensures
            s.wf(),
            s@.sessions == Map::<usize, H>::empty(),
            s@.rooms == Map::<Seq<char>, Seq<usize>>::empty(),
            s@.counter == 0,
    {
        let s = ChatServer { sessions: Vec::new(), rooms: Vec::new(), counter: 0 };
        proof {
            assert(s@.sessions =~= Map::<usize, H>::empty());
            assert(s@.rooms =~= Map::<Seq<char>, Seq<usize>>::empty());
            assert(forall|r: Seq<char>| #[trigger] s@.members(r) =~= Seq::<usize>::empty());
        }
        s
    }

    /// The index of `id` in the session list, if present.
    fn find_session_index(&self, id: usize) -> (r: Option<usize>)
        ensures
            match r {
                Some(i) => i < self.sessions@.len() && self.sessions@[i as int].0 == id,
                None => forall|j: int|
                    0 <= j < self.sessions@.len() ==> (#[trigger] self.sessions@[j]).0 != id,
            },
    {
        let mut j: usize = 0;
        while j < self.sessions.len()
            invariant
                j <= self.sessions@.len(),
                forall|k: int| 0 <= k < j ==> (#[trigger] self.sessions@[k]).0 != id,
            decreases self.sessions@.len() - j,
        {
            if self.sessions[j].0 == id {
                return Some(j);
            }
            j = j + 1;
        }
        None
    }

    /// Whether `id` has a live entry in the connection registry.
    fn has_session(&self, id: usize) -> (r: bool)
        requires
            self.wf(),
        ensures
            r == self@.sessions.contains_key(id),
    {
        match self.find_session_index(id) {
            Some(i) => {
                proof {
                    lemma_sessions_map_index(self.sessions@, i as int);
                }
                true
            }
            None => {
                proof {
                    lemma_sessions_map_absent(self.sessions@, id);
                }
                false
            }
        }
    }

    /// Registration: stores the delivery handle under a fresh, never-before
    /// used identifier and returns it. (`Register` of the connection
    /// registry.)
    pub fn register(&mut self, handle: H) -> (id: usize)
        requires
            old(self).wf(),
            old(self)@.counter < usize::MAX,
        ensures
            final(self).wf(),
            final(self)@ == old(self)@.after_register(handle),
            id == old(self)@.counter,
            !old(self)@.sessions.contains_key(id),
            !old(self)@.in_some_room(id),
    {
        let id = self.counter;
        self.counter = self.counter + 1;
        let ghost before = self.sessions@;
        self.sessions.push((id, handle));
        proof {
            assert(self.sessions@.drop_last() =~= before);
            assert forall|i: int| 0 <= i < before.len() implies (#[trigger] before[i]).0 != id by {
                lemma_sessions_map_index(before, i);
                assert(old(self)@.sessions.contains_key(before[i].0));
            }
            lemma_sessions_map_absent(before, id);
            assert(distinct_session_keys(self.sessions@)) by {
                assert(forall|i: int|
                    0 <= i < before.len() ==> self.sessions@[i] == before[i]);
            }
            assert(!old(self)@.in_some_room(id)) by {
                if old(self)@.in_some_room(id) {
                    let r = choose|r: Seq<char>| #[trigger] old(self)@.members(r).contains(id);
                }
            }
            assert(final(self)@ =~= old(self)@.after_register(handle)) by {
                assert(sessions_map(self.sessions@)
                    =~= sessions_map(before).insert(id, handle));
            }
            lemma_inv_register(old(self)@, handle);
        }
        id
    }

    /// Removal from the connection registry. Idempotent: removing an absent
    /// identifier is a no-op, not an error. (`Unregister`.)
    pub fn unregister(&mut self, id: usize)
        requires
            old(self).wf(),
        ensures
            final(self).wf(),
            final(self)@ == old(self)@.after_unregister(id),
            !final(self)@.sessions.contains_key(id),
    {
        match self.find_session_index(id) {
            Some(i) => {
                let ghost before = self.sessions@;
                self.sessions.remove(i);
                proof {
                    lemma_sessions_map_remove(before, i as int);
                    assert(distinct_session_keys(self.sessions@)) by {
                        assert(forall|k: int|
                            0 <= k < self.sessions@.len() ==> self.sessions@[k]
                                == if k < i { before[k] } else { before[k + 1] });
                    }
                    assert(final(self)@ =~= old(self)@.after_unregister(id));
                    lemma_inv_unregister(old(self)@, id);
                }
            }
            None => {
                proof {
                    lemma_sessions_map_absent(self.sessions@, id);
                    assert(old(self)@.sessions.remove(id) =~= old(self)@.sessions);
                    assert(final(self)@ =~= old(self)@.after_unregister(id));
                    lemma_inv_unregister(old(self)@, id);
                }
            }
        }
    }

    /// The delivery handle of a live connection, absent if the connection
    /// has already been removed — the caller treats absence as "not
    /// delivered to that peer", never as an error. (`Lookup`.)
    pub fn lookup(&self, id: usize) -> (r: Option<&H>)
        requires
            self.wf(),
        ensures
            match r {
                Some(h) => self@.sessions.contains_key(id) && *h == self@.sessions[id],
                None => !self@.sessions.contains_key(id),
            },
    {
        match self.find_session_index(id) {
            Some(i) => {
                proof {
                    lemma_sessions_map_index(self.sessions@, i as int);
                }
                let entry = &self.sessions[i];
                Some(&entry.1)
            }
            None => {
                proof {
                    lemma_sessions_map_absent(self.sessions@, id);
                }
                None
            }
        }
    }
}

/// Filtering a second time with the same predicate changes nothing.
pub proof fn lemma_filter_idempotent<A>(s: Seq<A>, pred: spec_fn(A) -> bool)
    ensures
        s.filter(pred).filter(pred) == s.filter(pred),
    decreases s.len(),
{
    reveal(Seq::filter);
    if s.len() > 0 {
        lemma_filter_idempotent(s.drop_last(), pred);
        let f = s.drop_last().filter(pred);
        if pred(s.last()) {
            assert(f.push(s.last()).drop_last() =~= f);
            assert(f.push(s.last()).last() == s.last());
        }
    }
}

proof fn lemma_rooms_map_index(s: Seq<(String, Vec<usize>)>, i: int)
    requires
        distinct_room_keys(s),
        0 <= i < s.len(),
    ensures
        rooms_map(s).contains_key(s[i].0@),
        rooms_map(s)[s[i].0@] == s[i].1@,
    decreases s.len(),
{
    if i < s.len() - 1 {
        assert(distinct_room_keys(s.drop_last())) by {
            assert(forall|k: int| 0 <= k < s.len() - 1 ==> s.drop_last()[k] == s[k]);
        }
        assert(s.drop_last()[i] == s[i]);
        lemma_rooms_map_index(s.drop_last(), i);
        assert(s.last().0@ != s[i].0@);
    }
}

proof fn lemma_rooms_map_absent(s: Seq<(String, Vec<usize>)>, k: Seq<char>)
    requires
        forall|i: int| 0 <= i < s.len() ==> (#[trigger] s[i]).0@ != k,
    ensures
        !rooms_map(s).contains_key(k),
    decreases s.len(),
{
    if s.len() > 0 {
        assert(forall|i: int|
            0 <= i < s.drop_last().len() ==> (#[trigger] s.drop_last()[i]).0@ != k);
        lemma_rooms_map_absent(s.drop_last(), k);
        assert(s.last().0@ != k);
    }
}

proof fn lemma_rooms_map_remove(s: Seq<(String, Vec<usize>)>, i: int)
    requires
        distinct_room_keys(s),
        0 <= i < s.len(),
    ensures
        rooms_map(s.remove(i)) == rooms_map(s).remove(s[i].0@),
    decreases s.len(),
{
    if i == s.len() - 1 {
        assert(s.remove(i) =~= s.drop_last());
        assert(forall|j: int|
            0 <= j < s.drop_last().len() ==> (#[trigger] s.drop_last()[j]).0@ != s[i].0@);
        lemma_rooms_map_absent(s.drop_last(), s[i].0@);
        assert(rooms_map(s.drop_last()) =~= rooms_map(s).remove(s[i].0@));
    } else {
        assert(distinct_room_keys(s.drop_last())) by {
            assert(forall|k: int| 0 <= k < s.len() - 1 ==> s.drop_last()[k] == s[k]);
        }
        lemma_rooms_map_remove(s.drop_last(), i);
        assert(s.remove(i).drop_last() =~= s.drop_last().remove(i));
        assert(s.remove(i).last() == s.last());
        assert(s.drop_last()[i] == s[i]);
        assert(s.last().0@ != s[i].0@);
        assert(rooms_map(s.drop_last()).remove(s[i].0@).insert(s.last().0@, s.last().1@)
            =~= rooms_map(s.drop_last()).insert(s.last().0@, s.last().1@).remove(s[i].0@));
    }
}

/// Joining keeps the invariant, provided the identifier is fresh to every
/// room and below the counter — which is how registration hands it out.
pub proof fn lemma_inv_join<H>(s: ServerView<H>, room: Seq<char>, id: usize)
    requires
        s.inv(),
        !s.in_some_room(id),
        id < s.counter,
    ensures
        s.after_join(room, id).inv(),
{
    let t = s.after_join(room, id);
    let nm = s.members(room).push(id);
    assert(!s.members(room).contains(id));
    assert(t.members(room) == nm);
    assert(forall|r: Seq<char>| r != room ==> #[trigger] t.members(r) == s.members(r));
    assert forall|x: usize| #[trigger] nm.contains(x)
        implies s.members(room).contains(x) || x == id by {
        let i = choose|i: int| 0 <= i < nm.len() && nm[i] == x;
        if i < nm.len() - 1 {
            assert(s.members(room)[i] == x);
        }
    }
    assert(nm.no_duplicates()) by {
        let m = s.members(room);
        assert forall|i: int, j: int| 0 <= i < j < nm.len() implies nm[i] != nm[j] by {
            if j < m.len() {
            } else {
                assert(nm[j] == id);
                assert(m.contains(m[i]));
            }
        }
    }
    assert forall|r: Seq<char>| (#[trigger] t.members(r)).no_duplicates() by {
        if r != room {
            assert(t.members(r) == s.members(r));
        }
    }
    assert forall|r1: Seq<char>, r2: Seq<char>, x: usize|
        #[trigger] t.members(r1).contains(x) && #[trigger] t.members(r2).contains(x)
        implies r1 == r2 by {
        if r1 != r2 {
            if t.members(r1).contains(id) && x == id && r1 != room {
                assert(t.members(r1) == s.members(r1));
            }
            if t.members(r2).contains(id) && x == id && r2 != room {
                assert(t.members(r2) == s.members(r2));
            }
            if x != id {
                assert(t.members(r1).contains(x) ==> s.members(r1).contains(x));
                assert(t.members(r2).contains(x) ==> s.members(r2).contains(x));
            }
        }
    }
    assert forall|r: Seq<char>, x: usize| #[trigger] t.members(r).contains(x)
        implies x < t.counter by {
        if r == room {
            assert(nm.contains(x));
        } else {
            assert(t.members(r) == s.members(r));
        }
    }
}

/// Leaving keeps the invariant: the member list only shrinks.
pub proof fn lemma_inv_leave<H>(s: ServerView<H>, room: Seq<char>, id: usize)
    requires
        s.inv(),
    ensures
        s.after_leave(room, id).inv(),
{
    let t = s.after_leave(room, id);
    if s.rooms.contains_key(room) {
        let nm = s.members(room).filter(ne_pred(id));
        assert(t.members(room) == nm);
        assert(forall|r: Seq<char>| r != room ==> #[trigger] t.members(r) == s.members(r));
        lemma_filter_no_dup(s.members(room), ne_pred(id));
        assert forall|x: usize| #[trigger] nm.contains(x) implies s.members(room).contains(x) by {
            lemma_filter_mem(s.members(room), ne_pred(id), x);
        }
        assert forall|r: Seq<char>| (#[trigger] t.members(r)).no_duplicates() by {
            if r != room {
                assert(t.members(r) == s.members(r));
            }
        }
        assert forall|r1: Seq<char>, r2: Seq<char>, x: usize|
            #[trigger] t.members(r1).contains(x) && #[trigger] t.members(r2).contains(x)
            implies r1 == r2 by {
            assert(t.members(r1).contains(x) ==> s.members(r1).contains(x));
            assert(t.members(r2).contains(x) ==> s.members(r2).contains(x));
        }
        assert forall|r: Seq<char>, x: usize| #[trigger] t.members(r).contains(x)
            implies x < t.counter by {
            assert(t.members(r).contains(x) ==> s.members(r).contains(x));
        }
    }
}

impl<H> ChatServer<H> {
    /// The index of `room` in the room list, if present.
    fn find_room_index(&self, room: &String) -> (r: Option<usize>)
        ensures
            match r {
                Some(i) => i < self.rooms@.len() && self.rooms@[i as int].0@ == room@,
                None => forall|j: int|
                    0 <= j < self.rooms@.len() ==> (#[trigger] self.rooms@[j]).0@ != room@,
            },
    {
        let mut j: usize = 0;
        while j < self.rooms.len()
            invariant
                j <= self.rooms@.len(),
                forall|k: int| 0 <= k < j ==> (#[trigger] self.rooms@[k]).0@ != room@,
            decreases self.rooms@.len() - j,
        {
            if self.rooms[j].0 == *room {
                return Some(j);
            }
            j = j + 1;
        }
        None
    }

    /// Swaps the member list stored at index `i` of the room list for
    /// `ids`, leaving every other room alone.
    fn replace_room_list(&mut self, i: usize, ids: Vec<usize>)
        requires
            distinct_room_keys(old(self).rooms@),
            i < old(self).rooms@.len(),
        ensures
            distinct_room_keys(final(self).rooms@),
            final(self).sessions@ == old(self).sessions@,
            final(self).counter == old(self).counter,
            rooms_map(final(self).rooms@) == rooms_map(old(self).rooms@).insert(
                old(self).rooms@[i as int].0@,
                ids@,
            ),
    {
        let ghost or = old(self).rooms@;
        let ghost key = or[i as int].0@;
        let pair = self.rooms.remove(i);
        self.rooms.push((pair.0, ids));
        proof {
            lemma_rooms_map_remove(or, i as int);
            let rr = or.remove(i as int);
            assert(self.rooms@.drop_last() =~= rr);
            assert(self.rooms@.last().0@ == key);
            assert(self.rooms@.last().1 == ids);
            assert(rooms_map(self.rooms@) == rooms_map(rr).insert(key, ids@));
            assert(rooms_map(or).remove(key).insert(key, ids@) =~= rooms_map(or).insert(
                key,
                ids@,
            ));
            assert(forall|k: int|
                0 <= k < rr.len() ==> #[trigger] rr[k] == if k < i as int {
                    or[k]
                } else {
                    or[k + 1]
                });
            assert forall|a: int, b: int| 0 <= a < b < self.rooms@.len()
                implies (#[trigger] self.rooms@[a]).0@ != (#[trigger] self.rooms@[b]).0@ by {
                let n = self.rooms@;
                if b < n.len() - 1 {
                    assert(n[a] == rr[a] && n[b] == rr[b]);
                } else {
                    assert(n[b].0@ == key);
                    assert(n[a] == rr[a]);
                }
            }
        }
    }

    /// Joining a room: appends `id` to the room's member list, creating the
    /// room on first join. The identifier must be fresh to every room —
    /// a connection joins exactly one room, at connect time. (`Join`.)
    pub fn join(&mut self, room: &String, id: usize)
        requires
            old(self).wf(),
            !old(self)@.in_some_room(id),
            id < old(self)@.counter,
        ensures
            final(self).wf(),
            final(self)@ == old(self)@.after_join(room@, id),
    {
        let ghost or = self.rooms@;
        match self.find_room_index(room) {
            Some(i) => {
                proof {
                    lemma_rooms_map_index(or, i as int);
                }
                let e = &self.rooms[i];
                let mut ids: Vec<usize> = Vec::new();
                let mut j: usize = 0;
                let n = e.1.len();
                while j < n
                    invariant
                        j <= n,
                        n == self.rooms@[i as int].1@.len(),
                        i < self.rooms@.len(),
                        ids@ == self.rooms@[i as int].1@.subrange(0, j as int),
                    decreases n - j,
                {
                    let e = &self.rooms[i];
                    ids.push(e.1[j]);
                    proof {
                        assert(self.rooms@[i as int].1@.subrange(0, j + 1 as int)
                            =~= self.rooms@[i as int].1@.subrange(0, j as int).push(
                            self.rooms@[i as int].1@[j as int],
                        ));
                    }
                    j = j + 1;
                }
                ids.push(id);
                proof {
                    assert(or[i as int].1@.subrange(0, or[i as int].1@.len() as int)
                        =~= or[i as int].1@);
                    assert(ids@ == or[i as int].1@.push(id));
                }
                self.replace_room_list(i, ids);
                proof {
                    assert(old(self)@.members(room@) == or[i as int].1@);
                    assert(final(self)@ =~= old(self)@.after_join(room@, id));
                    lemma_inv_join(old(self)@, room@, id);
                }
            }
            None => {
                let mut ids: Vec<usize> = Vec::new();
                ids.push(id);
                self.rooms.push((room.clone(), ids));
                proof {
                    lemma_rooms_map_absent(or, room@);
                    assert(self.rooms@.drop_last() =~= or);
                    assert(rooms_map(self.rooms@) == rooms_map(or).insert(room@, ids@));
                    assert(old(self)@.members(room@) =~= Seq::<usize>::empty());
                    assert(ids@ =~= old(self)@.members(room@).push(id));
                    assert(final(self)@ =~= old(self)@.after_join(room@, id));
                    assert(distinct_room_keys(self.rooms@)) by {
                        assert(forall|k: int|
                            0 <= k < or.len() ==> self.rooms@[k] == or[k]);
                    }
                    lemma_inv_join(old(self)@, room@, id);
                }
            }
        }
    }

    /// Leaving a room: drops `id` from the room's member list. Idempotent —
    /// leaving an absent room, or one the identifier is not in, is a no-op,
    /// not an error. (`Leave`.)
    pub fn leave(&mut self, room: &String, id: usize)
        requires
            old(self).wf(),
        ensures
            final(self).wf(),
            final(self)@ == old(self)@.after_leave(room@, id),
            !final(self)@.members(room@).contains(id),
            forall|r: Seq<char>| r != room@ ==> #[trigger] final(self)@.members(r)
                == old(self)@.members(r),
    {
        let ghost or = self.rooms@;
        match self.find_room_index(room) {
            Some(i) => {
                proof {
                    lemma_rooms_map_index(or, i as int);
                }
                let e = &self.rooms[i];
                let mut ids: Vec<usize> = Vec::new();
                let mut j: usize = 0;
                let n = e.1.len();
                while j < n
                    invariant
                        j <= n,
                        n == self.rooms@[i as int].1@.len(),
                        i < self.rooms@.len(),
                        ids@ == self.rooms@[i as int].1@.subrange(0, j as int).filter(
                            ne_pred(id),
                        ),
                    decreases n - j,
                {
                    let e = &self.rooms[i];
                    let x = e.1[j];
                    proof {
                        reveal(Seq::filter);
                        assert(self.rooms@[i as int].1@.subrange(0, j + 1 as int).drop_last()
                            =~= self.rooms@[i as int].1@.subrange(0, j as int));
                        assert(self.rooms@[i as int].1@.subrange(0, j + 1 as int).last()
                            == self.rooms@[i as int].1@[j as int]);
                    }
                    if x != id {
                        ids.push(x);
                    }
                    j = j + 1;
                }
                proof {
                    assert(or[i as int].1@.subrange(0, or[i as int].1@.len() as int)
                        =~= or[i as int].1@);
                    assert(ids@ == or[i as int].1@.filter(ne_pred(id)));
                }
                self.replace_room_list(i, ids);
                proof {
                    assert(old(self)@.rooms.contains_key(room@));
                    assert(old(self)@.rooms[room@] == or[i as int].1@);
                    assert(final(self)@ =~= old(self)@.after_leave(room@, id));
                    lemma_inv_leave(old(self)@, room@, id);
                    lemma_filter_mem(or[i as int].1@, ne_pred(id), id);
                }
            }
            None => {
                proof {
                    lemma_rooms_map_absent(or, room@);
                    assert(final(self)@ =~= old(self)@.after_leave(room@, id));
                    lemma_inv_leave(old(self)@, room@, id);
                }
            }
        }
    }

    /// A snapshot of a room's members: no identifier twice, exactly the
    /// identifiers joined and not yet left. (`Members`.)
    pub fn members(&self, room: &String) -> (r: Vec<usize>)
        requires
            self.wf(),
        ensures
            r@ == self@.members(room@),
            r@.no_duplicates(),
    {
        match self.find_room_index(room) {
            Some(i) => {
                proof {
                    lemma_rooms_map_index(self.rooms@, i as int);
                }
                let e = &self.rooms[i];
                let mut out: Vec<usize> = Vec::new();
                let mut j: usize = 0;
                let n = e.1.len();
                while j < n
                    invariant
                        j <= n,
                        n == self.rooms@[i as int].1@.len(),
                        i < self.rooms@.len(),
                        out@ == self.rooms@[i as int].1@.subrange(0, j as int),
                    decreases n - j,
                {
                    let e = &self.rooms[i];
                    out.push(e.1[j]);
                    proof {
                        assert(self.rooms@[i as int].1@.subrange(0, j + 1 as int)
                            =~= self.rooms@[i as int].1@.subrange(0, j as int).push(
                            self.rooms@[i as int].1@[j as int],
                        ));
                    }
                    j = j + 1;
                }
                proof {
                    assert(out@ =~= self.rooms@[i as int].1@);
                    assert(out@ == self@.members(room@));
                    assert(self@.members(room@).no_duplicates());
                }
                out
            }
            None => {
                proof {
                    lemma_rooms_map_absent(self.rooms@, room@);
                }
                Vec::new()
            }
        }
    }

    /// The delivery plan of one broadcast: for every member of the room
    /// other than `exclude` that still has a live registry entry, one
    /// outbound frame carrying the payload. A member already torn down is
    /// silently skipped; the plan preserves the room's join order.
    /// (`Broadcast` — the caller pushes each frame through the delivery
    /// handle `lookup` returns.)
    pub fn broadcast(&self, room: &String, message: &String, exclude: Option<usize>) -> (out: Vec<
        (usize, BroadcastMessage),
    >)
        requires
            self.wf(),
        ensures
            out@.len() == self@.targets(room@, exclude).len(),
            forall|k: int|
                0 <= k < out@.len() ==> {
                    &&& (#[trigger] out@[k]).0 == self@.targets(room@, exclude)[k]
                    &&& out@[k].1.room@ == room@
                    &&& out@[k].1.message@ == message@
                },
    {
        let members = self.members(room);
        let ghost pred = target_pred(self@, exclude);
        let mut out: Vec<(usize, BroadcastMessage)> = Vec::new();
        let mut j: usize = 0;
        while j < members.len()
            invariant
                self.wf(),
                j <= members@.len(),
                members@ == self@.members(room@),
                pred == target_pred(self@, exclude),
                out@.len() == members@.subrange(0, j as int).filter(pred).len(),
                forall|k: int|
                    0 <= k < out@.len() ==> {
                        &&& (#[trigger] out@[k]).0 == members@.subrange(0, j as int).filter(
                            pred,
                        )[k]
                        &&& out@[k].1.room@ == room@
                        &&& out@[k].1.message@ == message@
                    },
            decreases members@.len() - j,
        {
            let x = members[j];
            proof {
                reveal(Seq::filter);
                assert(members@.subrange(0, j + 1 as int).drop_last() =~= members@.subrange(
                    0,
                    j as int,
                ));
                assert(members@.subrange(0, j + 1 as int).last() == members@[j as int]);
            }
            let live = self.has_session(x);
            let excluded = match exclude {
                Some(e) => e == x,
                None => false,
            };
            if live && !excluded {
                out.push((x, BroadcastMessage { room: room.clone(), message: message.clone() }));
            }
            j = j + 1;
        }
        proof {
            assert(members@.subrange(0, members@.len() as int) =~= members@);
        }
        out
    }

    /// Whether the identifier space is exhausted: registration has no fresh
    /// identifier left to hand out. Callers outside the crate test this
    /// before connecting.
    pub fn is_full(&self) -> (r: bool)
        ensures
            r == (self@.counter == usize::MAX),
    {
        self.counter == usize::MAX
    }

    /// One connection arriving: registration under a fresh identifier plus
    /// joining its room, as one step of the shared state.
    pub fn connect(&mut self, handle: H, room: &String) -> (id: usize)
        requires
            old(self).wf(),
            old(self)@.counter < usize::MAX,
        ensures
            final(self).wf(),
            final(self)@ == old(self)@.after_connect(handle, room@),
            id == old(self)@.counter,
            !old(self)@.sessions.contains_key(id),
            !old(self)@.in_some_room(id),
    {
        let id = self.register(handle);
        proof {
            if self@.in_some_room(id) {
                let r = choose|r: Seq<char>| #[trigger] self@.members(r).contains(id);
                assert(old(self)@.members(r) == self@.members(r));
            }
        }
        self.join(room, id);
        id
    }

    /// One connection going away: removal from the connection registry and
    /// from its room, as one step of the shared state. Idempotent, like its
    /// two halves.
    pub fn disconnect(&mut self, id: usize, room: &String)
        requires
            old(self).wf(),
        ensures
            final(self).wf(),
            final(self)@ == old(self)@.after_disconnect(id, room@),
            !final(self)@.sessions.contains_key(id),
            !final(self)@.members(room@).contains(id),
            forall|r: Seq<char>| r != room@ ==> #[trigger] final(self)@.members(r)
                == old(self)@.members(r),
    {
        self.unregister(id);
        self.leave(room, id);
    }
}

/// What the delivery plan holds: exactly the room members that are live
/// and not the excluded sender.
pub proof fn lemma_targets_mem<H>(
    s: ServerView<H>,
    room: Seq<char>,
    exclude: Option<usize>,
    id: usize,
)
    ensures
        s.targets(room, exclude).contains(id) <==> s.members(room).contains(id)
            && s.sessions.contains_key(id) && exclude != Some(id),
{
    lemma_filter_mem(s.members(room), target_pred(s, exclude), id);
}

/// A delivery plan drawn from a duplicate-free member list names no
/// recipient twice.
pub proof fn lemma_targets_no_dup<H>(s: ServerView<H>, room: Seq<char>, exclude: Option<usize>)
    requires
        s.inv(),
    ensures
        s.targets(room, exclude).no_duplicates(),
{
    lemma_filter_no_dup(s.members(room), target_pred(s, exclude));
}

} // verus!
