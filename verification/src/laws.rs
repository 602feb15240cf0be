//! What holds of every run of the registry, stated over its model.
use crate::assoc::{as_map, distinct_keys, has_key, index_of, lemma_at, lemma_push};
use crate::registry::{
    age, fresh_only, inhabited, is_stale, others, registered, response_of, room_after, room_of, without_peer, EntryView, MemberView,
    RegistryView, RoomView,
};
use vstd::prelude::*;

verus! {

/// After an announcement the room holds no stale member, the requester's
/// entry holds the announced addresses and time, the answer does not report
/// the requester, and what is remembered of the other members is what it
/// was.
pub proof fn lemma_after_announcement(reg: RegistryView, room: Seq<char>, peer: Seq<char>, addrs: Seq<Seq<char>>, now: u64)
    ensures
        forall|k: Seq<char>| #[trigger] room_after(reg, room, peer, addrs, now).contains_key(k) ==> !is_stale(now, room_after(reg, room, peer, addrs, now)[k].last_seen),
        registered(reg, room, peer, addrs, now).contains_key(room),
        registered(reg, room, peer, addrs, now)[room].contains_key(peer),
        registered(reg, room, peer, addrs, now)[room][peer] == (EntryView { addrs, last_seen: now }),
        inhabited(registered(reg, room, peer, addrs, now)[room]),
        !response_of(reg, room, peer, addrs, now).contains_key(peer),
        forall|k: Seq<char>|
            k != peer && #[trigger] room_after(reg, room, peer, addrs, now).contains_key(k) ==> room_of(reg, room).contains_key(k)
                && room_after(reg, room, peer, addrs, now)[k] == room_of(reg, room)[k],
{
    assert(age(now, now) == 0);
    assert(room_after(reg, room, peer, addrs, now).contains_key(peer));
}

/// Two peers that announce themselves in one room, each before the other's
/// announcement is stale, are reported to each other, and neither is
/// reported to itself.
pub proof fn lemma_mutual_visibility(
    reg: RegistryView,
    room: Seq<char>,
    x: Seq<char>,
    ax: Seq<Seq<char>>,
    tx: u64,
    y: Seq<char>,
    ay: Seq<Seq<char>>,
    ty: u64,
    ax2: Seq<Seq<char>>,
    tx2: u64,
)
    requires
        x != y,
        !is_stale(ty, tx),
        !is_stale(tx2, ty),
    ensures
        ({
            let once = registered(reg, room, x, ax, tx);
            let twice = registered(once, room, y, ay, ty);
            let second = response_of(once, room, y, ay, ty);
            let third = response_of(twice, room, x, ax2, tx2);
            &&& second.contains_key(x) && second[x] == ax
            &&& !second.contains_key(y)
            &&& third.contains_key(y) && third[y] == ay
            &&& !third.contains_key(x)
        }),
{
    let once = registered(reg, room, x, ax, tx);
    let twice = registered(once, room, y, ay, ty);
    assert(room_of(once, room).contains_key(x));
    assert(fresh_only(room_of(once, room), ty).contains_key(x));
    assert(room_of(twice, room).contains_key(y));
    assert(fresh_only(room_of(twice, room), tx2).contains_key(y));
}

/// An announcement in one room changes no other room, and a peer that is no
/// member of a room is not reported there, whoever asks and when.
pub proof fn lemma_room_isolation(
    reg: RegistryView,
    here: Seq<char>,
    there: Seq<char>,
    x: Seq<char>,
    ax: Seq<Seq<char>>,
    tx: u64,
    q: Seq<char>,
    aq: Seq<Seq<char>>,
    tq: u64,
)
    requires
        here != there,
        !room_of(reg, there).contains_key(x),
    ensures
        room_of(registered(reg, here, x, ax, tx), there) == room_of(reg, there),
        registered(reg, here, x, ax, tx).contains_key(there) == reg.contains_key(there),
        !response_of(registered(reg, here, x, ax, tx), there, q, aq, tq).contains_key(x),
{
}

/// A peer becomes a member of a room by its own announcement there and in
/// no other way: an announcement adds no one but the requester, and only to
/// its room; a disconnect adds no one anywhere.
pub proof fn lemma_membership_by_announcement(
    reg: RegistryView,
    room: Seq<char>,
    q: Seq<char>,
    aq: Seq<Seq<char>>,
    tq: u64,
    gone: Seq<char>,
    there: Seq<char>,
    x: Seq<char>,
)
    ensures
        room_of(registered(reg, room, q, aq, tq), there).contains_key(x) ==> (there == room && x == q) || room_of(reg, there).contains_key(x),
        room_of(without_peer(reg, gone), there).contains_key(x) ==> room_of(reg, there).contains_key(x),
{
}

/// A peer that disconnected is a member of no room and is reported in none;
/// no room is left without a member; other peers stay where they were.
pub proof fn lemma_disconnect(reg: RegistryView, x: Seq<char>, room: Seq<char>, q: Seq<char>, aq: Seq<Seq<char>>, now: u64)
    ensures
        !room_of(without_peer(reg, x), room).contains_key(x),
        without_peer(reg, x).contains_key(room) ==> inhabited(without_peer(reg, x)[room]),
        without_peer(reg, x).contains_key(room) <==> reg.contains_key(room) && exists|y: Seq<char>| y != x && reg[room].contains_key(y),
        forall|y: Seq<char>| y != x ==> (#[trigger] room_of(without_peer(reg, x), room).contains_key(y) <==> room_of(reg, room).contains_key(y)),
        forall|y: Seq<char>| y != x && room_of(reg, room).contains_key(y) ==> #[trigger] room_of(without_peer(reg, x), room)[y] == reg[room][y],
        !response_of(without_peer(reg, x), room, q, aq, now).contains_key(x),
{
    if reg.contains_key(room) {
        let m = reg[room].remove(x);
        if inhabited(m) {
            let y = choose|y: Seq<char>| m.contains_key(y);
            assert(y != x && reg[room].contains_key(y));
        }
        if exists|y: Seq<char>| y != x && reg[room].contains_key(y) {
            let y = choose|y: Seq<char>| y != x && reg[room].contains_key(y);
            assert(m.contains_key(y));
        }
        assert forall|y: Seq<char>| y != x implies (#[trigger] room_of(without_peer(reg, x), room).contains_key(y) <==> room_of(reg, room).contains_key(y)) by {
            if reg[room].contains_key(y) {
                assert(m.contains_key(y));
            }
        }
        assert forall|y: Seq<char>| y != x && room_of(reg, room).contains_key(y) implies #[trigger] room_of(without_peer(reg, x), room)[y] == reg[room][y] by {
            assert(m.contains_key(y));
        }
    }
}

/// A member whose announcement is stale when its room is next touched is
/// neither reported in the answer nor a member afterwards.
pub proof fn lemma_stale_forgotten(reg: RegistryView, room: Seq<char>, x: Seq<char>, q: Seq<char>, aq: Seq<Seq<char>>, now: u64)
    requires
        reg.contains_key(room),
        reg[room].contains_key(x),
        is_stale(now, reg[room][x].last_seen),
        x != q,
    ensures
        !response_of(reg, room, q, aq, now).contains_key(x),
        !registered(reg, room, q, aq, now)[room].contains_key(x),
{
}

/// The registry after the announcements of `anns` were applied to `room`,
/// one after the other in the order of the sequence. An announcement is a
/// peer with its addresses and the time at which it was applied.
pub open spec fn announce_all(reg: RegistryView, room: Seq<char>, anns: Seq<(Seq<char>, EntryView)>) -> RegistryView
    decreases anns.len(),
{
    if anns.len() == 0 {
        reg
    } else {
        registered(announce_all(reg, room, anns.drop_last()), room, anns.last().0, anns.last().1.addrs, anns.last().1.last_seen)
    }
}

/// The announcements come from different peers, their times do not go
/// back, and none is stale when a later one is applied.
pub open spec fn in_one_burst(anns: Seq<(Seq<char>, EntryView)>) -> bool {
    &&& distinct_keys(anns)
    &&& forall|i: int, j: int|
        0 <= i < j < anns.len() ==> (#[trigger] anns[i]).1.last_seen <= (#[trigger] anns[j]).1.last_seen && !is_stale(
            anns[j].1.last_seen,
            anns[i].1.last_seen,
        )
}

/// After a burst of announcements, the members of the room that are not
/// stale at a time `t` no earlier than the burst are the announcing peers
/// and the earlier members that are not stale at `t`.
pub proof fn lemma_announce_all(reg: RegistryView, room: Seq<char>, anns: Seq<(Seq<char>, EntryView)>, t: u64)
    requires
        in_one_burst(anns),
        forall|j: int| 0 <= j < anns.len() ==> (#[trigger] anns[j]).1.last_seen <= t && !is_stale(t, anns[j].1.last_seen),
    ensures
        fresh_only(room_of(announce_all(reg, room, anns), room), t) == fresh_only(room_of(reg, room), t).union_prefer_right(as_map(anns)),
    decreases anns.len(),
{
    let base = room_of(reg, room);
    if anns.len() == 0 {
        assert(fresh_only(base, t) =~= fresh_only(base, t).union_prefer_right(as_map(anns)));
    } else {
        let init = anns.drop_last();
        let last = anns.last();
        let at = last.1.last_seen;
        assert(anns =~= init.push(last));
        assert forall|a: int, b: int| 0 <= a < b < init.len() implies (#[trigger] init[a]).0 != (#[trigger] init[b]).0 by {
            assert(anns[a].0 != anns[b].0);
        }
        assert forall|a: int, b: int| 0 <= a < b < init.len() implies (#[trigger] init[a]).1.last_seen <= (#[trigger] init[b]).1.last_seen
            && !is_stale(init[b].1.last_seen, init[a].1.last_seen) by {
            assert(anns[a].1.last_seen <= anns[b].1.last_seen);
        }
        assert forall|j: int| 0 <= j < init.len() implies (#[trigger] init[j]).1.last_seen <= at && !is_stale(at, init[j].1.last_seen) by {
            assert(anns[j].1.last_seen <= anns[anns.len() - 1].1.last_seen);
        }
        if has_key(init, last.0) {
            let j = index_of(init, last.0);
            assert(anns[j].0 != anns[anns.len() - 1].0);
        }
        lemma_announce_all(reg, room, init, at);
        lemma_push(init, last.0, last.1);
        assert(anns[anns.len() - 1].1.last_seen <= t);
        assert forall|k: Seq<char>| as_map(init).contains_key(k) implies !is_stale(t, (#[trigger] as_map(init)[k]).last_seen) by {
            let j = index_of(init, k);
            assert(has_key(init, k));
            lemma_at(init, j);
            assert(anns[j].1.last_seen <= t);
        }
        let prev = room_of(announce_all(reg, room, init), room);
        let merged = fresh_only(base, at).union_prefer_right(as_map(init));
        assert(fresh_only(prev, at) == merged);
        let now_room = room_of(announce_all(reg, room, anns), room);
        assert(last.1 == (EntryView { addrs: last.1.addrs, last_seen: at }));
        assert(now_room == merged.insert(last.0, last.1));
        assert(fresh_only(now_room, t) =~= fresh_only(base, t).union_prefer_right(as_map(anns)));
    }
}

/// Of peers that announce themselves in one room in a burst, whatever the
/// order their announcements are applied in, each is answered with exactly
/// the peers whose announcement was applied before its own, each with the
/// addresses it announced, beside the earlier members that are not stale.
pub proof fn lemma_serial_announcements(reg: RegistryView, room: Seq<char>, anns: Seq<(Seq<char>, EntryView)>, i: int)
    requires
        in_one_burst(anns),
        0 <= i < anns.len(),
    ensures
        ({
            let applied = anns.take(i);
            let me = anns[i];
            let answer = response_of(announce_all(reg, room, applied), room, me.0, me.1.addrs, me.1.last_seen);
            let earlier = fresh_only(room_of(reg, room), me.1.last_seen);
            &&& answer == others(earlier.union_prefer_right(as_map(applied)), me.0)
            &&& forall|k: Seq<char>| #[trigger] answer.contains_key(k) <==> k != me.0 && (has_key(applied, k) || earlier.contains_key(k))
            &&& forall|j: int| 0 <= j < i ==> answer.contains_key(#[trigger] anns[j].0) && answer[anns[j].0] == anns[j].1.addrs
        }),
{
    let applied = anns.take(i);
    let me = anns[i];
    let at = me.1.last_seen;
    assert forall|a: int, b: int| 0 <= a < b < applied.len() implies (#[trigger] applied[a]).0 != (#[trigger] applied[b]).0 by {
        assert(anns[a].0 != anns[b].0);
    }
    assert forall|a: int, b: int| 0 <= a < b < applied.len() implies (#[trigger] applied[a]).1.last_seen <= (#[trigger] applied[b]).1.last_seen
        && !is_stale(applied[b].1.last_seen, applied[a].1.last_seen) by {
        assert(anns[a].1.last_seen <= anns[b].1.last_seen);
    }
    assert forall|j: int| 0 <= j < applied.len() implies (#[trigger] applied[j]).1.last_seen <= at && !is_stale(at, applied[j].1.last_seen) by {
        assert(anns[j].1.last_seen <= anns[i].1.last_seen);
    }
    lemma_announce_all(reg, room, applied, at);
    let answer: MemberView = response_of(announce_all(reg, room, applied), room, me.0, me.1.addrs, at);
    let earlier: RoomView = fresh_only(room_of(reg, room), at);
    assert(answer =~= others(earlier.union_prefer_right(as_map(applied)), me.0));
    assert forall|j: int| 0 <= j < i implies answer.contains_key(#[trigger] anns[j].0) && answer[anns[j].0] == anns[j].1.addrs by {
        assert(applied[j] == anns[j]);
        lemma_at(applied, j);
        assert(anns[j].0 != anns[i].0);
    }
}

} // verus!
