use sunset_relay::registry::{handle_discovery, remove_peer, DiscoveryRequest, DiscoveryResponse, RoomRegistry, PEER_TTL_NANOS};

const SECOND: u64 = 1_000_000_000;

fn s(text: &str) -> String {
    String::from(text)
}

fn addrs(items: &[&str]) -> Vec<String> {
    items.iter().map(|a| String::from(*a)).collect()
}

fn sorted(resp: DiscoveryResponse) -> Vec<(String, Vec<String>)> {
    let mut out: Vec<(String, Vec<String>)> = resp.peers.into_iter().map(|p| (p.peer_id, p.addrs)).collect();
    out.sort();
    out
}

fn announce(reg: &mut RoomRegistry, room: &str, peer: &str, a: &[&str], now: u64) -> Vec<(String, Vec<String>)> {
    sorted(reg.register(s(room), s(peer), addrs(a), now))
}

#[test]
fn lobby_scenario() {
    let mut reg = RoomRegistry::new();
    assert_eq!(announce(&mut reg, "lobby", "alice", &["a1"], 0), vec![]);
    assert_eq!(announce(&mut reg, "lobby", "bob", &["a2"], SECOND), vec![(s("alice"), addrs(&["a1"]))]);
    assert_eq!(announce(&mut reg, "lobby", "alice", &["a1b"], 2 * SECOND), vec![(s("bob"), addrs(&["a2"]))]);
    assert_eq!(announce(&mut reg, "lobby", "carol", &[], 33 * SECOND), vec![]);
    assert_eq!(reg.last_seen(&s("lobby"), &s("alice")), None);
    assert_eq!(reg.last_seen(&s("lobby"), &s("bob")), None);
    assert_eq!(reg.last_seen(&s("lobby"), &s("carol")), Some(33 * SECOND));
}

#[test]
fn two_peers_see_each_other_and_not_themselves() {
    let mut reg = RoomRegistry::new();
    let first = announce(&mut reg, "r", "alice", &["x"], 10);
    let second = announce(&mut reg, "r", "bob", &["y"], 20);
    let third = announce(&mut reg, "r", "alice", &["x"], 30);
    assert!(first.is_empty());
    assert_eq!(second, vec![(s("alice"), addrs(&["x"]))]);
    assert_eq!(third, vec![(s("bob"), addrs(&["y"]))]);
}

#[test]
fn rooms_are_isolated() {
    let mut reg = RoomRegistry::new();
    announce(&mut reg, "north", "X", &["x"], 0);
    assert_eq!(announce(&mut reg, "south", "Q", &["q"], 1), vec![]);
    assert_eq!(announce(&mut reg, "south", "Z", &["z"], 2), vec![(s("Q"), addrs(&["q"]))]);
    assert_eq!(reg.last_seen(&s("south"), &s("X")), None);
    assert_eq!(reg.last_seen(&s("north"), &s("X")), Some(0));
}

#[test]
fn disconnect_clears_every_room_and_drops_empty_ones() {
    let mut reg = RoomRegistry::new();
    announce(&mut reg, "R", "X", &["x"], 0);
    announce(&mut reg, "S", "X", &["x"], 1);
    announce(&mut reg, "S", "Y", &["y"], 2);
    let mut names = reg.room_names();
    names.sort();
    assert_eq!(names, vec![s("R"), s("S")]);
    reg.remove_peer(&s("X"));
    assert_eq!(reg.room_names(), vec![s("S")]);
    assert_eq!(reg.last_seen(&s("R"), &s("X")), None);
    assert_eq!(reg.last_seen(&s("S"), &s("X")), None);
    assert_eq!(reg.last_seen(&s("S"), &s("Y")), Some(2));
    assert_eq!(announce(&mut reg, "S", "Z", &[], 3), vec![(s("Y"), addrs(&["y"]))]);
}

#[test]
fn disconnect_of_an_unknown_peer_changes_nothing() {
    let mut reg = RoomRegistry::new();
    announce(&mut reg, "R", "X", &["x"], 0);
    remove_peer(&mut reg, &s("nobody"));
    assert_eq!(reg.room_names(), vec![s("R")]);
    assert_eq!(reg.last_seen(&s("R"), &s("X")), Some(0));
    let mut empty = RoomRegistry::new();
    remove_peer(&mut empty, &s("X"));
    assert!(empty.room_names().is_empty());
}

#[test]
fn disconnect_does_not_touch_the_time_of_others() {
    let mut reg = RoomRegistry::new();
    announce(&mut reg, "R", "X", &["x"], 5);
    announce(&mut reg, "R", "Y", &["y"], 7);
    reg.remove_peer(&s("X"));
    assert_eq!(reg.last_seen(&s("R"), &s("Y")), Some(7));
}

#[test]
fn stale_member_is_forgotten_when_the_room_is_touched() {
    let mut reg = RoomRegistry::new();
    announce(&mut reg, "R", "X", &["x"], 0);
    announce(&mut reg, "R", "Y", &["y"], 10 * SECOND);
    let seen = announce(&mut reg, "R", "Q", &["q"], 31 * SECOND);
    assert_eq!(seen, vec![(s("Y"), addrs(&["y"]))]);
    assert_eq!(reg.last_seen(&s("R"), &s("X")), None);
    assert_eq!(reg.last_seen(&s("R"), &s("Y")), Some(10 * SECOND));
}

#[test]
fn time_to_live_is_thirty_seconds_to_the_nanosecond() {
    assert_eq!(PEER_TTL_NANOS, 30_000_000_000);
    let mut kept = RoomRegistry::new();
    announce(&mut kept, "R", "X", &["x"], 5);
    assert_eq!(announce(&mut kept, "R", "Q", &[], 5 + PEER_TTL_NANOS - 1), vec![(s("X"), addrs(&["x"]))]);
    let mut gone = RoomRegistry::new();
    announce(&mut gone, "R", "X", &["x"], 5);
    assert_eq!(announce(&mut gone, "R", "Q", &[], 5 + PEER_TTL_NANOS), vec![]);
}

#[test]
fn a_clock_that_reads_earlier_makes_nothing_stale() {
    let mut reg = RoomRegistry::new();
    announce(&mut reg, "R", "X", &["x"], u64::MAX);
    assert_eq!(announce(&mut reg, "R", "Q", &[], 0), vec![(s("X"), addrs(&["x"]))]);
}

#[test]
fn stale_members_of_untouched_rooms_stay() {
    let mut reg = RoomRegistry::new();
    announce(&mut reg, "idle", "X", &["x"], 0);
    announce(&mut reg, "busy", "Y", &["y"], 100 * SECOND);
    assert_eq!(reg.last_seen(&s("idle"), &s("X")), Some(0));
}

#[test]
fn own_stale_entry_is_refreshed() {
    let mut reg = RoomRegistry::new();
    announce(&mut reg, "R", "X", &["old"], 0);
    assert_eq!(announce(&mut reg, "R", "X", &["new"], 60 * SECOND), vec![]);
    assert_eq!(reg.last_seen(&s("R"), &s("X")), Some(60 * SECOND));
    assert_eq!(announce(&mut reg, "R", "Y", &[], 61 * SECOND), vec![(s("X"), addrs(&["new"]))]);
}

#[test]
fn addresses_are_replaced_not_merged_and_kept_verbatim() {
    let mut reg = RoomRegistry::new();
    announce(&mut reg, "R", "X", &["b", "a", "b"], 0);
    assert_eq!(announce(&mut reg, "R", "Y", &[], 1), vec![(s("X"), addrs(&["b", "a", "b"]))]);
    announce(&mut reg, "R", "X", &[], 2);
    assert_eq!(announce(&mut reg, "R", "Y", &[], 3), vec![(s("X"), addrs(&[]))]);
}

#[test]
fn serial_announcements_report_exactly_the_earlier_peers() {
    let mut reg = RoomRegistry::new();
    let names = ["ann", "ben", "cy", "dee", "eli", "fay"];
    for (i, name) in names.iter().enumerate() {
        let seen = sorted(reg.register(s("room"), s(name), addrs(&[name]), 7));
        let expected: Vec<(String, Vec<String>)> = names[..i].iter().map(|n| (s(n), addrs(&[n]))).collect();
        assert_eq!(seen, expected);
    }
}

#[test]
fn handle_discovery_registers_the_request() {
    let mut reg = RoomRegistry::new();
    let first = handle_discovery(&mut reg, DiscoveryRequest { room: s("R"), peer_id: s("A"), addrs: addrs(&["a"]) }, 1);
    assert!(first.peers.is_empty());
    let second = handle_discovery(&mut reg, DiscoveryRequest { room: s("R"), peer_id: s("B"), addrs: addrs(&["b"]) }, 2);
    assert_eq!(sorted(second), vec![(s("A"), addrs(&["a"]))]);
    assert_eq!(reg.last_seen(&s("R"), &s("B")), Some(2));
}

#[test]
fn new_registry_has_no_rooms() {
    let reg = RoomRegistry::new();
    assert!(reg.room_names().is_empty());
    assert_eq!(reg.last_seen(&s("R"), &s("X")), None);
}
