use netsync::packet::{EnemyState, NetworkEvent, Vec2Bits};
use netsync::session::{PeerUpdate, ServerState, SessionContext};

fn connect(peer_id: u128) -> PeerUpdate {
    PeerUpdate { peer_id, connected: true }
}

fn disconnect(peer_id: u128) -> PeerUpdate {
    PeerUpdate { peer_id, connected: false }
}

fn enemy_event(id: u16, visible: bool) -> NetworkEvent {
    NetworkEvent::EnemyState(EnemyState {
        id,
        position: Vec2Bits { x: 0, y: 0 },
        visible,
    })
}

#[test]
fn test_role_host_when_alone() {
    let mut ctx = SessionContext::new();
    assert_eq!(ctx.role, ServerState::Unknown);
    ctx.determine_role_once(0);
    assert_eq!(ctx.role, ServerState::Host);
    // Later determinations, whatever they observe, are no-ops.
    ctx.determine_role_once(5);
    assert_eq!(ctx.role, ServerState::Host);
    ctx.determine_role_once(0);
    assert_eq!(ctx.role, ServerState::Host);
}

#[test]
fn test_role_client_when_peers_present() {
    let mut ctx = SessionContext::new();
    ctx.determine_role_once(2);
    assert_eq!(ctx.role, ServerState::Client);
    ctx.determine_role_once(0);
    assert_eq!(ctx.role, ServerState::Client);
}

#[test]
fn test_two_peers_decide_host_and_client() {
    // Peer A polls first and sees nobody: it becomes the host. Peer B
    // joins and sees one peer at its first poll: it becomes a client.
    let mut a = SessionContext::new();
    let io_a = a.read_events(&vec![], &vec![]);
    assert_eq!(a.role, ServerState::Host);
    assert!(io_a.connected.is_empty() && io_a.disconnected.is_empty());

    let mut b = SessionContext::new();
    let io_b = b.read_events(&vec![connect(0xAA)], &vec![]);
    assert_eq!(b.role, ServerState::Client);
    assert_eq!(io_b.connected.len(), 1);
    assert_eq!(io_b.connected[0].peer_id, 0xAA);
}

#[test]
fn test_role_decided_after_transitions_apply() {
    // The decision uses the peer count after this tick's transitions: a
    // peer that connects and leaves within the first poll leaves the
    // count at zero, so this session hosts.
    let mut ctx = SessionContext::new();
    ctx.read_events(&vec![connect(4), disconnect(4)], &vec![]);
    assert_eq!(ctx.role, ServerState::Host);
    assert!(ctx.peers.is_empty());
}

#[test]
fn test_peer_list_transitions() {
    let mut ctx = SessionContext::new();
    ctx.read_events(&vec![connect(1), connect(2), connect(1)], &vec![]);
    assert_eq!(ctx.peers, vec![1, 2], "a duplicate connect adds no entry");
    let io = ctx.read_events(&vec![disconnect(1), disconnect(9)], &vec![]);
    assert_eq!(ctx.peers, vec![2], "unknown disconnects are no-ops");
    assert_eq!(io.disconnected.len(), 2, "transitions are still forwarded");
}

#[test]
fn test_broadcast_none_without_events() {
    let mut ctx = SessionContext::new();
    let io = ctx.read_events(&vec![], &vec![]);
    assert!(io.broadcast.is_none());
}

#[test]
fn test_outbox_flushes_into_broadcast() {
    let mut sender = SessionContext::new();
    sender.outbox.send(enemy_event(3, true));
    sender.outbox.send(enemy_event(4, false));
    let io = sender.read_events(&vec![], &vec![]);
    let bytes = io.broadcast.expect("queued events must be broadcast");
    assert!(sender.outbox.events.is_empty(), "the outbox drains on flush");

    let mut receiver = SessionContext::new();
    receiver.read_events(&vec![], &vec![bytes]);
    assert_eq!(receiver.inbox.enemy_states.len(), 2);
    assert_eq!(receiver.inbox.enemy_states[0].id, 3);
    assert!(receiver.inbox.enemy_states[0].visible);
    assert_eq!(receiver.inbox.enemy_states[1].id, 4);
    assert!(!receiver.inbox.enemy_states[1].visible);
}

#[test]
fn test_dispatch_keeps_arrival_order_across_packets() {
    let mut s1 = SessionContext::new();
    s1.outbox.send(enemy_event(1, true));
    let b1 = s1.read_events(&vec![], &vec![]).broadcast.unwrap();
    let mut s2 = SessionContext::new();
    s2.outbox.send(enemy_event(2, true));
    s2.outbox.send(enemy_event(3, true));
    let b2 = s2.read_events(&vec![], &vec![]).broadcast.unwrap();

    let mut receiver = SessionContext::new();
    receiver.read_events(&vec![], &vec![b1, b2]);
    let ids: Vec<u16> = receiver.inbox.enemy_states.iter().map(|e| e.id).collect();
    assert_eq!(ids, vec![1, 2, 3]);
}

#[test]
fn test_undecodable_packet_is_dropped() {
    let mut sender = SessionContext::new();
    sender.outbox.send(enemy_event(5, true));
    let good = sender.read_events(&vec![], &vec![]).broadcast.unwrap();

    let mut receiver = SessionContext::new();
    receiver.read_events(&vec![], &vec![vec![9, 9, 9], good, vec![]]);
    assert_eq!(receiver.inbox.enemy_states.len(), 1, "only the valid packet lands");
    assert_eq!(receiver.inbox.enemy_states[0].id, 5);
}

#[test]
fn test_room_url() {
    assert_eq!(
        netsync::session::room_url("wss://bevy-jam-4.fly.dev", "test", 2),
        "wss://bevy-jam-4.fly.dev/test?next=2"
    );
    assert_eq!(netsync::session::room_url("ws://localhost:3536", "lobby", 0), "ws://localhost:3536/lobby?next=0");
    assert_eq!(netsync::session::room_url("w", "r", 255), "w/r?next=255");
    assert_eq!(netsync::session::room_url("w", "r", 10), "w/r?next=10");
}

#[test]
fn test_inbox_take_drains_one_queue() {
    let mut sender = SessionContext::new();
    sender.outbox.send(enemy_event(1, true));
    let bytes = sender.read_events(&vec![], &vec![]).broadcast.unwrap();
    let mut receiver = SessionContext::new();
    receiver.read_events(&vec![], &vec![bytes]);
    let drained = receiver.inbox.take_enemy_states();
    assert_eq!(drained.len(), 1);
    assert!(receiver.inbox.enemy_states.is_empty());
}
