//! The room registry: which peers announced themselves in which room, and
//! what each announcement is answered with.
//!
//! Times are nanoseconds read from one monotonic clock. The registry never
//! reads a clock itself: the caller hands in the time of each announcement.
use crate::assoc::{as_map, distinct_keys, has_key, index_of, lemma_at, lemma_empty, lemma_push, lemma_remove, lemma_update};
use vstd::prelude::*;

verus! {

/// Age, in nanoseconds, from which an announcement counts as stale: 30 seconds.
pub const PEER_TTL_NANOS: u64 = 30_000_000_000;

/// One announcement: a peer makes itself known in a room.
#[derive(Clone, Debug)]
pub struct DiscoveryRequest {
    pub room: String,
    pub peer_id: String,
    pub addrs: Vec<String>,
}

/// One member of a room as an answer reports it.
#[derive(Clone, Debug)]
pub struct PeerInfo {
    pub peer_id: String,
    pub addrs: Vec<String>,
}

/// The answer to an announcement: the other members of the room.
#[derive(Clone, Debug)]
pub struct DiscoveryResponse {
    pub peers: Vec<PeerInfo>,
}

/// What the registry remembers of one member of a room.
pub struct EntryView {
    pub addrs: Seq<Seq<char>>,
    pub last_seen: u64,
}

/// A room as a map from peer identifier to what is remembered of the peer.
pub type RoomView = Map<Seq<char>, EntryView>;

/// The registry as a map from room name to room.
pub type RegistryView = Map<Seq<char>, RoomView>;

/// What an answer reports: a map from peer identifier to advertised addresses.
pub type MemberView = Map<Seq<char>, Seq<Seq<char>>>;

/// The advertised addresses as character sequences, in their order.
pub open spec fn addr_seq(v: Seq<String>) -> Seq<Seq<char>> {
    Seq::new(v.len(), |i: int| v[i]@)
}

/// Time elapsed between an announcement and `now`; zero where the clock
/// reads earlier than the announcement.
pub open spec fn age(now: u64, last_seen: u64) -> int {
    if now >= last_seen {
        now - last_seen
    } else {
        0
    }
}

/// An announcement is stale once its age has reached the time-to-live.
pub open spec fn is_stale(now: u64, last_seen: u64) -> bool {
    age(now, last_seen) >= PEER_TTL_NANOS
}

/// The members of a room whose announcement is not stale at `now`.
pub open spec fn fresh_only(m: RoomView, now: u64) -> RoomView {
    Map::new(|k: Seq<char>| m.contains_key(k) && !is_stale(now, m[k].last_seen), |k: Seq<char>| m[k])
}

/// The addresses of every member of a room but `peer`.
pub open spec fn others(m: RoomView, peer: Seq<char>) -> MemberView {
    Map::new(|k: Seq<char>| m.contains_key(k) && k != peer, |k: Seq<char>| m[k].addrs)
}

/// A room has at least one member.
pub open spec fn inhabited(m: RoomView) -> bool {
    exists|k: Seq<char>| m.contains_key(k)
}

/// The room named `room`, empty where the registry has none of that name.
pub open spec fn room_of(reg: RegistryView, room: Seq<char>) -> RoomView {
    if reg.contains_key(room) {
        reg[room]
    } else {
        Map::empty()
    }
}

/// The room after `peer` announced itself there at `now`: stale members are
/// gone, and the peer's entry holds the new addresses and the time `now`.
pub open spec fn room_after(reg: RegistryView, room: Seq<char>, peer: Seq<char>, addrs: Seq<Seq<char>>, now: u64) -> RoomView {
    fresh_only(room_of(reg, room), now).insert(peer, EntryView { addrs, last_seen: now })
}

/// The registry after `peer` announced itself in `room` at `now`.
pub open spec fn registered(reg: RegistryView, room: Seq<char>, peer: Seq<char>, addrs: Seq<Seq<char>>, now: u64) -> RegistryView {
    reg.insert(room, room_after(reg, room, peer, addrs, now))
}

/// The answer that `peer` gets for announcing itself in `room` at `now`.
pub open spec fn response_of(reg: RegistryView, room: Seq<char>, peer: Seq<char>, addrs: Seq<Seq<char>>, now: u64) -> MemberView {
    others(room_after(reg, room, peer, addrs, now), peer)
}

/// The registry after `peer` disconnected: the peer is a member of no room,
/// and rooms that it was the only member of are gone.
pub open spec fn without_peer(reg: RegistryView, peer: Seq<char>) -> RegistryView {
    Map::new(
        |r: Seq<char>| reg.contains_key(r) && inhabited(reg[r].remove(peer)),
        |r: Seq<char>| reg[r].remove(peer),
    )
}

impl DiscoveryResponse {
    /// The reported members as pairs of identifier and addresses, in order.
    pub open spec fn pairs(self) -> Seq<(Seq<char>, Seq<Seq<char>>)> {
        Seq::new(self.peers@.len(), |i: int| (self.peers@[i].peer_id@, addr_seq(self.peers@[i].addrs@)))
    }

    /// No peer is reported twice.
    pub open spec fn distinct(self) -> bool {
        distinct_keys(self.pairs())
    }
}

impl View for DiscoveryResponse {
    type V = MemberView;

    open spec fn view(&self) -> MemberView {
        as_map(self.pairs())
    }
}

struct PeerEntry {
    peer_id: String,
    addrs: Vec<String>,
    last_seen: u64,
}

impl PeerEntry {
    spec fn view(self) -> EntryView {
        EntryView { addrs: addr_seq(self.addrs@), last_seen: self.last_seen }
    }
}

struct Room {
    name: String,
    members: Vec<PeerEntry>,
}

/// A copy of the addresses.
fn clone_addrs(v: &Vec<String>) -> (r: Vec<String>)
    ensures
        addr_seq(r@) == addr_seq(v@),
{
    let mut r: Vec<String> = Vec::new();
    let mut i: usize = 0;
    while i < v.len()
        invariant
            i <= v@.len(),
            r@.len() == i,
            forall|j: int| 0 <= j < i ==> r@[j]@ == v@[j]@,
        decreases v@.len() - i,
    {
        r.push(v[i].clone());
        i += 1;
    }
    proof {
        assert(addr_seq(r@) =~= addr_seq(v@));
    }
    r
}

impl Room {
    spec fn pairs(self) -> Seq<(Seq<char>, EntryView)> {
        Seq::new(self.members@.len(), |i: int| (self.members@[i].peer_id@, self.members@[i].view()))
    }

    spec fn wf(self) -> bool {
        distinct_keys(self.pairs())
    }

    spec fn view(self) -> RoomView {
        as_map(self.pairs())
    }

    proof fn lemma_inhabited(self)
        requires
            self.wf(),
        ensures
            inhabited(self.view()) <==> self.members@.len() > 0,
    {
        if self.members@.len() > 0 {
            lemma_at(self.pairs(), 0);
            assert(self.view().contains_key(self.pairs()[0].0));
        }
        if inhabited(self.view()) {
            let k = choose|k: Seq<char>| self.view().contains_key(k);
            assert(has_key(self.pairs(), k));
        }
    }

    /// Where the peer stands among the members.
    fn position(&self, peer_id: &String) -> (r: Option<usize>)
        requires
            self.wf(),
        ensures
            match r {
                Some(i) => i < self.members@.len() && self.members@[i as int].peer_id@ == peer_id@,
                None => !self.view().contains_key(peer_id@),
            },
    {
        let mut i: usize = 0;
        while i < self.members.len()
            invariant
                i <= self.members@.len(),
                forall|j: int| 0 <= j < i ==> self.members@[j].peer_id@ != peer_id@,
            decreases self.members@.len() - i,
        {
            if self.members[i].peer_id == *peer_id {
                return Some(i);
            }
            i += 1;
        }
        proof {
            if has_key(self.pairs(), peer_id@) {
                let j = index_of(self.pairs(), peer_id@);
                assert(self.members@[j].peer_id@ == peer_id@);
            }
        }
        None
    }

    /// Forgets every member whose announcement is stale at `now`.
    fn prune(&mut self, now: u64)
        requires
            old(self).wf(),
        ensures
            final(self).wf(),
            final(self).view() == fresh_only(old(self).view(), now),
            final(self).name == old(self).name,
    {
        let mut i: usize = 0;
        while i < self.members.len()
            invariant
                i <= self.members@.len(),
                self.wf(),
                self.name == old(self).name,
                fresh_only(self.view(), now) == fresh_only(old(self).view(), now),
                forall|j: int| 0 <= j < i ==> !is_stale(now, self.members@[j].last_seen),
            decreases self.members@.len() - i,
        {
            let seen: u64 = self.members[i].last_seen;
            if now >= seen && now - seen >= PEER_TTL_NANOS {
                let ghost before = *self;
                self.members.remove(i);
                proof {
                    assert(self.pairs() =~= before.pairs().remove(i as int));
                    lemma_remove(before.pairs(), i as int);
                    lemma_at(before.pairs(), i as int);
                    assert(fresh_only(self.view(), now) =~= fresh_only(before.view(), now));
                }
            } else {
                i += 1;
            }
        }
        proof {
            assert forall|k: Seq<char>| self.view().contains_key(k) implies !is_stale(now, self.view()[k].last_seen) by {
                let j = index_of(self.pairs(), k);
                assert(has_key(self.pairs(), k));
                lemma_at(self.pairs(), j);
            }
            assert(fresh_only(self.view(), now) =~= self.view());
        }
    }

    /// Enters the peer, or replaces what was remembered of it.
    fn upsert(&mut self, peer_id: String, addrs: Vec<String>, now: u64)
        requires
            old(self).wf(),
        ensures
            final(self).wf(),
            final(self).view() == old(self).view().insert(
                peer_id@,
                EntryView { addrs: addr_seq(addrs@), last_seen: now },
            ),
            final(self).name == old(self).name,
            final(self).members@.len() > 0,
    {
        let ghost before = *self;
        let ghost value = EntryView { addrs: addr_seq(addrs@), last_seen: now };
        let found = self.position(&peer_id);
        let entry = PeerEntry { peer_id, addrs, last_seen: now };
        match found {
            Some(i) => {
                self.members.set(i, entry);
                proof {
                    assert(self.pairs() =~= before.pairs().update(i as int, (before.pairs()[i as int].0, value)));
                    lemma_update(before.pairs(), i as int, value);
                }
            },
            None => {
                self.members.push(entry);
                proof {
                    assert(self.pairs() =~= before.pairs().push((entry.peer_id@, value)));
                    lemma_push(before.pairs(), entry.peer_id@, value);
                }
            },
        }
    }

    /// Forgets the peer, where it is a member.
    fn remove_member(&mut self, peer_id: &String)
        requires
            old(self).wf(),
        ensures
            final(self).wf(),
            final(self).view() == old(self).view().remove(peer_id@),
            final(self).name == old(self).name,
    {
        let ghost before = *self;
        match self.position(peer_id) {
            Some(i) => {
                self.members.remove(i);
                proof {
                    assert(self.pairs() =~= before.pairs().remove(i as int));
                    lemma_remove(before.pairs(), i as int);
                }
            },
            None => {
                proof {
                    assert(self.view().remove(peer_id@) =~= self.view());
                }
            },
        }
    }

    /// Every member but `peer_id`, each with its addresses.
    fn members_except(&self, peer_id: &String) -> (r: DiscoveryResponse)
        requires
            self.wf(),
        ensures
            r.distinct(),
            r@ == others(self.view(), peer_id@),
    {
        let mut out = DiscoveryResponse { peers: Vec::new() };
        let mut i: usize = 0;
        proof {
            lemma_empty::<Seq<char>, Seq<Seq<char>>>();
            lemma_empty::<Seq<char>, EntryView>();
            assert(out.pairs() =~= Seq::empty());
            assert(self.pairs().take(0) =~= Seq::empty());
            assert(others(Map::<Seq<char>, EntryView>::empty(), peer_id@) =~= Map::empty());
        }
        while i < self.members.len()
            invariant
                i <= self.members@.len(),
                self.wf(),
                out.distinct(),
                out@ == others(as_map(self.pairs().take(i as int)), peer_id@),
            decreases self.members@.len() - i,
        {
            let ghost s = self.pairs();
            let ghost head = s.take(i as int);
            let ghost before = out;
            proof {
                assert(s.take(i + 1) =~= head.push(s[i as int]));
                assert(distinct_keys(head)) by {
                    assert forall|a: int, b: int| 0 <= a < b < head.len() implies (#[trigger] head[a]).0 != (#[trigger] head[b]).0 by {
                        assert(s[a].0 != s[b].0);
                    }
                }
                if has_key(head, s[i as int].0) {
                    let j = index_of(head, s[i as int].0);
                    assert(s[j].0 != s[i as int].0);
                }
                lemma_push(head, s[i as int].0, s[i as int].1);
            }
            if self.members[i].peer_id != *peer_id {
                let info = PeerInfo {
                    peer_id: self.members[i].peer_id.clone(),
                    addrs: clone_addrs(&self.members[i].addrs),
                };
                out.peers.push(info);
                proof {
                    let k = s[i as int].0;
                    let a = s[i as int].1.addrs;
                    assert(out.pairs() =~= before.pairs().push((k, a)));
                    assert(!has_key(before.pairs(), k)) by {
                        assert(!before@.contains_key(k));
                    }
                    lemma_push(before.pairs(), k, a);
                    assert(out@ =~= others(as_map(s.take(i + 1)), peer_id@));
                }
            } else {
                proof {
                    assert(out@ =~= others(as_map(s.take(i + 1)), peer_id@));
                }
            }
            i += 1;
        }
        proof {
            assert(self.pairs().take(i as int) =~= self.pairs());
        }
        out
    }
}

/// The rooms of a rendezvous node and their members.
///
/// The registry is owned by one holder at a time: every operation sees all
/// that earlier operations did, and nothing else.
pub struct RoomRegistry {
    rooms: Vec<Room>,
}

impl View for RoomRegistry {
    type V = RegistryView;

    closed spec fn view(&self) -> RegistryView {
        as_map(self.pairs())
    }
}

impl RoomRegistry {
    spec fn pairs(self) -> Seq<(Seq<char>, RoomView)> {
        Seq::new(self.rooms@.len(), |i: int| (self.rooms@[i].name@, self.rooms@[i].view()))
    }

    /// Room names are pairwise different, no peer is twice in a room, and
    /// every room has a member.
    pub closed spec fn wf(self) -> bool {
        &&& distinct_keys(self.pairs())
        &&& forall|i: int| 0 <= i < self.rooms@.len() ==> (#[trigger] self.rooms@[i]).wf() && self.rooms@[i].members@.len() > 0
    }

    /// A registry without rooms.
    pub fn new() -> (r: Self)
        ensures
            r.wf(),
            r@ == Map::<Seq<char>, RoomView>::empty(),
    {
        let r = RoomRegistry { rooms: Vec::new() };
        proof {
            lemma_empty::<Seq<char>, RoomView>();
            assert(r.pairs() =~= Seq::empty());
        }
        r
    }

    /// Where the room stands among the rooms.
    fn position(&self, room: &String) -> (r: Option<usize>)
        requires
            self.wf(),
        ensures
            match r {
                Some(i) => i < self.rooms@.len() && self.rooms@[i as int].name@ == room@ && self@.contains_key(room@)
                    && self@[room@] == self.rooms@[i as int].view(),
                None => !self@.contains_key(room@),
            },
    {
        let mut i: usize = 0;
        while i < self.rooms.len()
            invariant
                i <= self.rooms@.len(),
                self.wf(),
                forall|j: int| 0 <= j < i ==> self.rooms@[j].name@ != room@,
            decreases self.rooms@.len() - i,
        {
            if self.rooms[i].name == *room {
                proof {
                    lemma_at(self.pairs(), i as int);
                }
                return Some(i);
            }
            i += 1;
        }
        proof {
            if has_key(self.pairs(), room@) {
                let j = index_of(self.pairs(), room@);
                assert(self.rooms@[j].name@ == room@);
            }
        }
        None
    }

    /// The names of the rooms, each once.
    pub fn room_names(&self) -> (r: Vec<String>)
        requires
            self.wf(),
        ensures
            forall|i: int, j: int| 0 <= i < j < r@.len() ==> r@[i]@ != r@[j]@,
            forall|i: int| 0 <= i < r@.len() ==> self@.contains_key(#[trigger] r@[i]@),
            forall|name: Seq<char>| self@.contains_key(name) ==> exists|i: int| 0 <= i < r@.len() && #[trigger] r@[i]@ == name,
    {
        let mut r: Vec<String> = Vec::new();
        let mut i: usize = 0;
        while i < self.rooms.len()
            invariant
                i <= self.rooms@.len(),
                r@.len() == i,
                forall|j: int| 0 <= j < i ==> (#[trigger] r@[j])@ == self.rooms@[j].name@,
            decreases self.rooms@.len() - i,
        {
            r.push(self.rooms[i].name.clone());
            i += 1;
        }
        proof {
            let s = self.pairs();
            assert forall|a: int, b: int| 0 <= a < b < r@.len() implies r@[a]@ != r@[b]@ by {
                assert(s[a].0 != s[b].0);
            }
            assert forall|a: int| 0 <= a < r@.len() implies self@.contains_key(#[trigger] r@[a]@) by {
                lemma_at(s, a);
            }
            assert forall|name: Seq<char>| self@.contains_key(name) implies exists|a: int| 0 <= a < r@.len() && #[trigger] r@[a]@ == name by {
                assert(has_key(s, name));
                let j = index_of(s, name);
                assert(r@[j]@ == name);
            }
        }
        r
    }

    /// When `peer_id` last announced itself in `room`, where it is a member.
    pub fn last_seen(&self, room: &String, peer_id: &String) -> (r: Option<u64>)
        requires
            self.wf(),
        ensures
            r == (if room_of(self@, room@).contains_key(peer_id@) {
                Some(self@[room@][peer_id@].last_seen)
            } else {
                None
            }),
    {
        match self.position(room) {
            Some(i) => match self.rooms[i].position(peer_id) {
                Some(j) => {
                    proof {
                        lemma_at(self.rooms@[i as int].pairs(), j as int);
                    }
                    Some(self.rooms[i].members[j].last_seen)
                },
                None => None,
            },
            None => None,
        }
    }

    /// Every room of a well-formed registry has a member.
    pub proof fn lemma_no_empty_room(self)
        requires
            self.wf(),
        ensures
            forall|room: Seq<char>| self@.contains_key(room) ==> inhabited(#[trigger] self@[room]),
    {
        assert forall|room: Seq<char>| self@.contains_key(room) implies inhabited(#[trigger] self@[room]) by {
            assert(has_key(self.pairs(), room));
            let j = index_of(self.pairs(), room);
            lemma_at(self.pairs(), j);
            self.rooms@[j].lemma_inhabited();
        }
    }

    /// Announces `peer_id` in `room` at the time `now`, and answers with the
    /// other members of the room.
    ///
    /// Members of the room whose announcement is stale at `now` are forgotten
    /// first. The peer's entry then holds `addrs` and `now`, whatever it held
    /// before; a room that did not exist is created. Other rooms stay as they
    /// are.
    pub fn register(&mut self, room: String, peer_id: String, addrs: Vec<String>, now: u64) -> (r: DiscoveryResponse)
        requires
            old(self).wf(),
        ensures
            final(self).wf(),
            final(self)@ == registered(old(self)@, room@, peer_id@, addr_seq(addrs@), now),
            r.distinct(),
            r@ == response_of(old(self)@, room@, peer_id@, addr_seq(addrs@), now),
    {
        let ghost before = *self;
        let requester = peer_id.clone();
        match self.position(&room) {
            Some(i) => {
                let mut target = self.rooms.remove(i);
                target.prune(now);
                target.upsert(peer_id, addrs, now);
                let r = target.members_except(&requester);
                self.rooms.insert(i, target);
                proof {
                    assert(self.rooms@ =~= before.rooms@.update(i as int, target));
                    assert(self.pairs() =~= before.pairs().update(i as int, (before.pairs()[i as int].0, target.view())));
                    lemma_update(before.pairs(), i as int, target.view());
                    assert forall|j: int| 0 <= j < self.rooms@.len() implies (#[trigger] self.rooms@[j]).wf() && self.rooms@[j].members@.len() > 0 by {
                        if j != i {
                            assert(self.rooms@[j] == before.rooms@[j]);
                        }
                    }
                }
                r
            },
            None => {
                let mut target = Room { name: room, members: Vec::new() };
                proof {
                    lemma_empty::<Seq<char>, EntryView>();
                    assert(target.pairs() =~= Seq::empty());
                    assert(fresh_only(Map::<Seq<char>, EntryView>::empty(), now) =~= Map::empty());
                }
                target.upsert(peer_id, addrs, now);
                let r = target.members_except(&requester);
                self.rooms.push(target);
                proof {
                    assert(self.pairs() =~= before.pairs().push((target.name@, target.view())));
                    lemma_push(before.pairs(), target.name@, target.view());
                    assert forall|j: int| 0 <= j < self.rooms@.len() implies (#[trigger] self.rooms@[j]).wf() && self.rooms@[j].members@.len() > 0 by {
                        if j < before.rooms@.len() {
                            assert(self.rooms@[j] == before.rooms@[j]);
                        }
                    }
                }
                r
            },
        }
    }

    /// Forgets `peer_id` in every room, and every room that is left without a
    /// member.
    pub fn remove_peer(&mut self, peer_id: &String)
        requires
            old(self).wf(),
        ensures
            final(self).wf(),
            final(self)@ == without_peer(old(self)@, peer_id@),
    {
        let mut i: usize = 0;
        while i < self.rooms.len()
            invariant
                i <= self.rooms@.len(),
                self.wf(),
                without_peer(self@, peer_id@) == without_peer(old(self)@, peer_id@),
                forall|j: int| 0 <= j < i ==> !(#[trigger] self.rooms@[j]).view().contains_key(peer_id@),
            decreases self.rooms@.len() - i,
        {
            let ghost before = *self;
            let mut target = self.rooms.remove(i);
            let ghost was = target;
            target.remove_member(peer_id);
            proof {
                lemma_at(before.pairs(), i as int);
                lemma_remove(before.pairs(), i as int);
                target.lemma_inhabited();
            }
            if target.members.len() == 0 {
                proof {
                    assert(self.pairs() =~= before.pairs().remove(i as int));
                    assert(without_peer(self@, peer_id@) =~= without_peer(before@, peer_id@));
                    assert forall|j: int| 0 <= j < self.rooms@.len() implies (#[trigger] self.rooms@[j]).wf() && self.rooms@[j].members@.len() > 0 by {
                        assert(self.rooms@[j] == before.rooms@[if j < i { j } else { j + 1 }]);
                    }
                    assert forall|j: int| 0 <= j < i implies !(#[trigger] self.rooms@[j]).view().contains_key(peer_id@) by {
                        assert(self.rooms@[j] == before.rooms@[j]);
                    }
                }
            } else {
                self.rooms.insert(i, target);
                proof {
                    assert(self.rooms@ =~= before.rooms@.update(i as int, target));
                    assert(self.pairs() =~= before.pairs().update(i as int, (before.pairs()[i as int].0, target.view())));
                    lemma_update(before.pairs(), i as int, target.view());
                    assert(target.view().remove(peer_id@) =~= target.view());
                    assert(was.view().remove(peer_id@).remove(peer_id@) =~= was.view().remove(peer_id@));
                    assert(without_peer(self@, peer_id@) =~= without_peer(before@, peer_id@));
                    assert forall|j: int| 0 <= j < self.rooms@.len() implies (#[trigger] self.rooms@[j]).wf() && self.rooms@[j].members@.len() > 0 by {
                        if j != i {
                            assert(self.rooms@[j] == before.rooms@[j]);
                        }
                    }
                    assert forall|j: int| 0 <= j < i + 1 implies !(#[trigger] self.rooms@[j]).view().contains_key(peer_id@) by {
                        if j != i {
                            assert(self.rooms@[j] == before.rooms@[j]);
                        }
                    }
                }
                i += 1;
            }
        }
        proof {
            let m = self@;
            assert forall|r: Seq<char>| m.contains_key(r) implies inhabited(m[r].remove(peer_id@)) && m[r].remove(peer_id@) == m[r] by {
                assert(has_key(self.pairs(), r));
                let j = index_of(self.pairs(), r);
                lemma_at(self.pairs(), j);
                self.rooms@[j].lemma_inhabited();
                assert(m[r].remove(peer_id@) =~= m[r]);
            }
            assert(without_peer(m, peer_id@) =~= m);
        }
    }
}

/// Applies one announcement to the registry and answers it: see
/// [`RoomRegistry::register`].
pub fn handle_discovery(registry: &mut RoomRegistry, req: DiscoveryRequest, now: u64) -> (r: DiscoveryResponse)
    requires
        old(registry).wf(),
    ensures
        final(registry).wf(),
        final(registry)@ == registered(old(registry)@, req.room@, req.peer_id@, addr_seq(req.addrs@), now),
        r.distinct(),
        r@ == response_of(old(registry)@, req.room@, req.peer_id@, addr_seq(req.addrs@), now),
{
    registry.register(req.room, req.peer_id, req.addrs, now)
}

/// Cleans up after a peer whose connection closed: see
/// [`RoomRegistry::remove_peer`].
pub fn remove_peer(registry: &mut RoomRegistry, peer_id: &String)
    requires
        old(registry).wf(),
    ensures
        final(registry).wf(),
        final(registry)@ == without_peer(old(registry)@, peer_id@),
{
    registry.remove_peer(peer_id)
}

} // verus!
