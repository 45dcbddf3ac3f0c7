use netsync::packet::{BulletState, EnemyState, PlayerState, QuatBits, Vec2Bits, Vec3Bits};
use netsync::session::{PeerUpdate, ServerState, SessionContext};
use netsync::sync::{BulletPool, EnemyPool, PlayerRoster, MAX_BULLET_COUNT, MAX_ENEMY_COUNT};

fn v2(x: f32, y: f32) -> Vec2Bits {
    Vec2Bits { x: x.to_bits(), y: y.to_bits() }
}

fn v3(x: f32, y: f32, z: f32) -> Vec3Bits {
    Vec3Bits { x: x.to_bits(), y: y.to_bits(), z: z.to_bits() }
}

fn quat_y(w: f32) -> QuatBits {
    QuatBits {
        x: 0.0f32.to_bits(),
        y: 0.5f32.to_bits(),
        z: 0.0f32.to_bits(),
        w: w.to_bits(),
    }
}

fn player_event(id: u128, x: f32) -> PlayerState {
    PlayerState { id, position: v3(x, 0.0, 2.0), rotation: quat_y(0.75) }
}

#[test]
fn test_connect_creates_one_entity() {
    let mut roster = PlayerRoster::new();
    roster.connected_handler(42);
    assert_eq!(roster.players.len(), 1);
    assert_eq!(roster.players[0].peer.0, 42);
    // A duplicate connect must not bind a second entity to the same peer.
    roster.connected_handler(42);
    assert_eq!(roster.players.len(), 1);
}

#[test]
fn test_player_state_overwrites_bound_entity() {
    let mut roster = PlayerRoster::new();
    roster.connected_handler(7);
    roster.player_state_handler(&player_event(7, 5.5));
    assert_eq!(roster.players[0].position, v3(5.5, 0.0, 2.0));
    assert_eq!(roster.players[0].rotation, quat_y(0.75));
}

#[test]
fn test_player_state_for_unknown_id_is_dropped() {
    let mut roster = PlayerRoster::new();
    roster.connected_handler(7);
    let before = roster.players.clone();
    roster.player_state_handler(&player_event(8, 5.5));
    assert_eq!(roster.players.len(), before.len());
    assert_eq!(roster.players[0].position, before[0].position);
}

#[test]
fn test_player_apply_twice_equals_once() {
    let mut once = PlayerRoster::new();
    once.connected_handler(7);
    once.connected_handler(8);
    let mut twice = PlayerRoster::new();
    twice.connected_handler(7);
    twice.connected_handler(8);

    let ev = player_event(7, -1.25);
    once.player_state_handler(&ev);
    twice.player_state_handler(&ev);
    twice.player_state_handler(&ev);
    assert_eq!(once.players, twice.players);
}

#[test]
fn test_disconnect_cleanup() {
    let mut roster = PlayerRoster::new();
    roster.connected_handler(1);
    roster.connected_handler(2);
    roster.disconnected_handler(1);
    assert_eq!(roster.players.len(), 1);
    assert!(roster.players.iter().all(|p| p.peer.0 != 1));
    // A later state event for the departed peer is dropped without error.
    let before = roster.players.clone();
    roster.player_state_handler(&player_event(1, 9.0));
    assert_eq!(roster.players, before);
    // A disconnect that races ahead of entity creation is a no-op.
    roster.disconnected_handler(99);
    assert_eq!(roster.players.len(), 1);
}

#[test]
fn test_pool_binding_stability() {
    let mut pool = EnemyPool::new(MAX_ENEMY_COUNT);
    let first = EnemyState { id: 6, position: v2(1.0, 1.0), visible: true };
    let second = EnemyState { id: 6, position: v2(2.0, 2.0), visible: true };
    pool.enemy_state_handler(&first);
    pool.enemy_state_handler(&second);
    // Both updates resolved to the same slot; the later one superseded the
    // earlier, and no other slot was touched.
    assert_eq!(pool.slots[6].position, v2(2.0, 2.0));
    assert!(pool.slots[6].visible);
    for (i, slot) in pool.slots.iter().enumerate() {
        if i != 6 {
            assert!(!slot.visible);
        }
    }
}

#[test]
fn test_enemy_out_of_range_is_dropped() {
    let mut pool = EnemyPool::new(8);
    let before = pool.slots.clone();
    pool.enemy_state_handler(&EnemyState { id: 8, position: v2(1.0, 1.0), visible: true });
    assert_eq!(pool.slots, before, "an id beyond the pool is a silent no-op");
}

#[test]
fn test_bullet_state_overwrites_slot() {
    let mut pool = BulletPool::new(MAX_BULLET_COUNT);
    let ev = BulletState { id: 1023, position: v2(3.0, 4.0), velocity: v2(-1.0, 0.5), visible: true };
    pool.bullet_state_handler(&ev);
    assert_eq!(pool.slots[1023].position, v2(3.0, 4.0));
    assert_eq!(pool.slots[1023].velocity, v2(-1.0, 0.5));
    assert!(pool.slots[1023].visible);
    let out_of_range = BulletState { id: 70_000, position: v2(0.0, 0.0), velocity: v2(0.0, 0.0), visible: true };
    pool.bullet_state_handler(&out_of_range);
    assert!(pool.slots.iter().filter(|s| s.visible).count() == 1);
}

#[test]
fn test_client_pool_ignores_events_when_host() {
    let mut pool = EnemyPool::new(8);
    let events = vec![EnemyState { id: 1, position: v2(1.0, 1.0), visible: true }];
    pool.net_read(ServerState::Host, &events);
    assert!(!pool.slots[1].visible, "the host is authoritative and applies nothing");
    pool.net_read(ServerState::Client, &events);
    assert!(pool.slots[1].visible);
}

#[test]
fn test_host_emits_nothing_as_client() {
    let pool = EnemyPool::new(4);
    assert!(pool.net_write(ServerState::Client).is_empty());
    assert!(pool.net_write(ServerState::Unknown).is_empty());
    assert_eq!(pool.net_write(ServerState::Host).len(), 4);
}

#[test]
fn test_roster_net_write_by_role() {
    let mut roster = PlayerRoster::new();
    roster.connected_handler(5);
    let local = Some(player_event(9, 0.0));
    assert_eq!(roster.net_write(ServerState::Host, local).len(), 2);
    assert_eq!(roster.net_write(ServerState::Client, local).len(), 1);
    assert_eq!(roster.net_write(ServerState::Client, None).len(), 0);
    assert_eq!(roster.net_write(ServerState::Unknown, local).len(), 0);
}

#[test]
fn test_host_to_client_enemy_sync() {
    // The host (alone at decision time) announces its enemy pool; a client
    // receives the packet and its pool converges to the host's state.
    let mut host = SessionContext::new();
    host.read_events(&vec![], &vec![]);
    assert_eq!(host.role, ServerState::Host);

    let mut client = SessionContext::new();
    client.read_events(&vec![PeerUpdate { peer_id: 1, connected: true }], &vec![]);
    assert_eq!(client.role, ServerState::Client);

    let mut host_pool = EnemyPool::new(8);
    host_pool.enemy_state_handler(&EnemyState { id: 3, position: v2(1.0, 2.0), visible: true });
    host.outbox.send_batch(host_pool.net_write(host.role));
    let bytes = host.read_events(&vec![], &vec![]).broadcast.expect("host must broadcast");

    let mut client_pool = EnemyPool::new(8);
    client.read_events(&vec![], &vec![bytes]);
    let events = client.inbox.take_enemy_states();
    client_pool.net_read(client.role, &events);
    assert_eq!(client_pool.slots[3].position, v2(1.0, 2.0));
    assert!(client_pool.slots[3].visible);

    // The host then hides enemy 3; the client's entity 3 follows.
    host_pool.enemy_state_handler(&EnemyState { id: 3, position: v2(1.0, 2.0), visible: false });
    host.outbox.send_batch(host_pool.net_write(host.role));
    let bytes = host.read_events(&vec![], &vec![]).broadcast.expect("host must broadcast");
    client.read_events(&vec![], &vec![bytes]);
    let events = client.inbox.take_enemy_states();
    client_pool.net_read(client.role, &events);
    assert!(!client_pool.slots[3].visible);
}
