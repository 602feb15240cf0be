use sunset_relay::dispatch::{on_event, RelayAction, RelayEvent};
use sunset_relay::registry::{DiscoveryRequest, RoomRegistry};

fn request(room: &str, peer: &str, addr: &str) -> DiscoveryRequest {
    DiscoveryRequest { room: String::from(room), peer_id: String::from(peer), addrs: vec![String::from(addr)] }
}

#[test]
fn announcement_is_answered() {
    let mut reg = RoomRegistry::new();
    assert!(matches!(on_event(&mut reg, RelayEvent::Discovery(request("R", "A", "a")), 0), RelayAction::Respond(r) if r.peers.is_empty()));
    match on_event(&mut reg, RelayEvent::Discovery(request("R", "B", "b")), 1) {
        RelayAction::Respond(r) => {
            assert_eq!(r.peers.len(), 1);
            assert_eq!(r.peers[0].peer_id, "A");
            assert_eq!(r.peers[0].addrs, vec![String::from("a")]);
        }
        RelayAction::Nothing => panic!("an announcement gets an answer"),
    }
}

#[test]
fn closed_connection_removes_the_peer() {
    let mut reg = RoomRegistry::new();
    on_event(&mut reg, RelayEvent::Discovery(request("R", "A", "a")), 0);
    on_event(&mut reg, RelayEvent::Discovery(request("S", "A", "a")), 0);
    on_event(&mut reg, RelayEvent::Discovery(request("S", "B", "b")), 0);
    assert!(matches!(on_event(&mut reg, RelayEvent::ConnectionClosed(String::from("A")), 1), RelayAction::Nothing));
    assert_eq!(reg.room_names(), vec![String::from("S")]);
    assert_eq!(reg.last_seen(&String::from("S"), &String::from("A")), None);
}

#[test]
fn other_events_change_nothing() {
    let mut reg = RoomRegistry::new();
    on_event(&mut reg, RelayEvent::Discovery(request("R", "A", "a")), 4);
    assert!(matches!(on_event(&mut reg, RelayEvent::Other, 100_000_000_000), RelayAction::Nothing));
    assert_eq!(reg.last_seen(&String::from("R"), &String::from("A")), Some(4));
}
