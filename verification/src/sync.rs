//! State synchronizer: applies typed remote events to local simulation
//! state and manages entity lifecycle tied to peer connections.
//!
//! Remote players live in a roster keyed by the owning peer's identifier;
//! enemies and bullets live in fixed pools keyed by their small-integer id.
//! Every update is a full-state replacement, so applying the same event
//! twice is the same as applying it once, and an event whose id is unknown
//! or out of range is dropped without error.

use vstd::prelude::*;

use crate::packet::{BulletState, EnemyState, NetworkEvent, PlayerState, QuatBits, Vec2Bits,
    Vec3Bits};
use crate::session::{PlayerPeerId, ServerState};

verus! {

/// A remote-owned player entity: the binding to its peer and the transform
/// that remote full-state updates overwrite.
#[derive(Clone, Copy, Debug, PartialEq, Eq, Structural)]
pub struct RemotePlayer {
    pub peer: PlayerPeerId,
    pub position: Vec3Bits,
    pub rotation: QuatBits,
}

/// The state a freshly connected peer's entity starts with.
pub open spec fn default_remote_player(id: u128) -> RemotePlayer {
    RemotePlayer {
        peer: PlayerPeerId(id),
        position: Vec3Bits { x: 0u32, y: 0u32, z: 0u32 },
        rotation: QuatBits { x: 0u32, y: 0u32, z: 0u32, w: 0x3f80_0000u32 },
    }
}

/// First position of the entity bound to peer `x`, if any.
pub open spec fn find_bound(s: Seq<RemotePlayer>, x: u128) -> Option<int>
    decreases s.len(),
{
    if s.len() == 0 {
        None
    } else if s[0].peer.0 == x {
        Some(0int)
    } else {
        match find_bound(s.drop_first(), x) {
            None => None,
            Some(i) => Some(i + 1),
        }
    }
}

pub proof fn lemma_find_bound_props(s: Seq<RemotePlayer>, x: u128)
    ensures
        match find_bound(s, x) {
            None => forall|i: int| 0 <= i < s.len() ==> s[i].peer.0 != x,
            Some(i) => 0 <= i < s.len() && s[i].peer.0 == x,
        },
    decreases s.len(),
{
    if s.len() > 0 {
        lemma_find_bound_props(s.drop_first(), x);
        if s[0].peer.0 != x {
            match find_bound(s.drop_first(), x) {
                None => {
                    assert forall|i: int| 0 <= i < s.len() implies s[i].peer.0 != x by {
                        if i > 0 {
                            assert(s.drop_first()[i - 1] == s[i]);
                        }
                    }
                },
                Some(_) => {},
            }
        }
    }
}

/// If `s[k]` is bound to `x` and nothing before `k` is, the first binding
/// is at `k`.
pub proof fn lemma_find_bound_first(s: Seq<RemotePlayer>, x: u128, k: int)
    requires
        0 <= k < s.len(),
        s[k].peer.0 == x,
        forall|j: int| 0 <= j < k ==> s[j].peer.0 != x,
    ensures
        find_bound(s, x) == Some(k),
    decreases s.len(),
{
    if k > 0 {
        assert(s.drop_first()[k - 1] == s[k]);
        assert forall|j: int| 0 <= j < k - 1 implies s.drop_first()[j].peer.0 != x by {
            assert(s.drop_first()[j] == s[j + 1]);
        }
        lemma_find_bound_first(s.drop_first(), x, k - 1);
    }
}

/// Where an entity is bound depends on the bindings alone, not on the
/// transforms the entities hold.
pub proof fn lemma_find_bound_same_peers(s: Seq<RemotePlayer>, t: Seq<RemotePlayer>, x: u128)
    requires
        s.len() == t.len(),
        forall|i: int| 0 <= i < s.len() ==> s[i].peer == t[i].peer,
    ensures
        find_bound(s, x) == find_bound(t, x),
    decreases s.len(),
{
    if s.len() > 0 {
        let sd = s.drop_first();
        let td = t.drop_first();
        assert forall|i: int| 0 <= i < sd.len() implies sd[i].peer == td[i].peer by {
            assert(sd[i] == s[i + 1]);
            assert(td[i] == t[i + 1]);
        }
        lemma_find_bound_same_peers(sd, td, x);
    }
}

/// At most one entity is bound to any peer.
pub open spec fn distinct_peers(s: Seq<RemotePlayer>) -> bool {
    forall|i: int, j: int| 0 <= i < j < s.len() ==> s[i].peer.0 != s[j].peer.0
}

/// The roster after a peer connected: a fresh default entity bound to it,
/// unless one is already bound.
pub open spec fn spec_connect_player(s: Seq<RemotePlayer>, x: u128) -> Seq<RemotePlayer> {
    match find_bound(s, x) {
        Some(_) => s,
        None => s.push(default_remote_player(x)),
    }
}

/// The roster after a peer disconnected: its entity destroyed, a no-op
/// when none was bound (a disconnect may race with entity creation).
pub open spec fn spec_disconnect_player(s: Seq<RemotePlayer>, x: u128) -> Seq<RemotePlayer> {
    match find_bound(s, x) {
        Some(i) => s.remove(i),
        None => s,
    }
}

/// The roster after one player-state event: the bound entity's transform
/// fully overwritten, the event dropped when no entity is bound to its id.
pub open spec fn spec_apply_player(s: Seq<RemotePlayer>, ev: PlayerState) -> Seq<RemotePlayer> {
    match find_bound(s, ev.id) {
        Some(i) => s.update(
            i,
            RemotePlayer { peer: s[i].peer, position: ev.position, rotation: ev.rotation },
        ),
        None => s,
    }
}

/// The roster after a batch of player-state events, applied in order.
pub open spec fn spec_apply_players(s: Seq<RemotePlayer>, evs: Seq<PlayerState>) -> Seq<
    RemotePlayer,
>
    decreases evs.len(),
{
    if evs.len() == 0 {
        s
    } else {
        spec_apply_players(spec_apply_player(s, evs[0]), evs.drop_first())
    }
}

pub proof fn lemma_apply_players_snoc(s: Seq<RemotePlayer>, evs: Seq<PlayerState>, ev: PlayerState)
    ensures
        spec_apply_players(s, evs.push(ev)) == spec_apply_player(spec_apply_players(s, evs), ev),
    decreases evs.len(),
{
    reveal_with_fuel(spec_apply_players, 3);
    if evs.len() == 0 {
        assert(evs.push(ev)[0] == ev);
        assert(evs.push(ev).drop_first() =~= Seq::<PlayerState>::empty());
    } else {
        assert(evs.push(ev)[0] == evs[0]);
        assert(evs.push(ev).drop_first() =~= evs.drop_first().push(ev));
        lemma_apply_players_snoc(spec_apply_player(s, evs[0]), evs.drop_first(), ev);
    }
}

/// Applying the same full-state player event twice in succession yields
/// the same roster as applying it once.
pub proof fn lemma_player_apply_idempotent(s: Seq<RemotePlayer>, ev: PlayerState)
    ensures
        spec_apply_player(spec_apply_player(s, ev), ev) == spec_apply_player(s, ev),
{
    lemma_find_bound_props(s, ev.id);
    match find_bound(s, ev.id) {
        None => {},
        Some(i) => {
            let t = spec_apply_player(s, ev);
            assert forall|k: int| 0 <= k < s.len() implies s[k].peer == t[k].peer by {}
            lemma_find_bound_same_peers(s, t, ev.id);
            assert(t.update(
                i,
                RemotePlayer { peer: t[i].peer, position: ev.position, rotation: ev.rotation },
            ) =~= t);
        },
    }
}

/// After a disconnect no entity remains bound to the peer, and a later
/// player-state event carrying that peer's id is dropped without effect.
pub proof fn lemma_disconnect_cleanup(s: Seq<RemotePlayer>, x: u128, ev: PlayerState)
    requires
        distinct_peers(s),
        ev.id == x,
    ensures
        forall|i: int|
            0 <= i < spec_disconnect_player(s, x).len() ==> spec_disconnect_player(s, x)[i].peer.0
                != x,
        spec_apply_player(spec_disconnect_player(s, x), ev) == spec_disconnect_player(s, x),
{
    lemma_find_bound_props(s, x);
    let t = spec_disconnect_player(s, x);
    match find_bound(s, x) {
        None => {},
        Some(k) => {
            assert forall|i: int| 0 <= i < t.len() implies t[i].peer.0 != x by {
                assert(t[i] == (if i < k {
                    s[i]
                } else {
                    s[i + 1]
                }));
            }
        },
    }
    lemma_find_bound_props(t, x);
    match find_bound(t, x) {
        Some(k) => {
            assert(t[k].peer.0 == x);
            assert(false);
        },
        None => {},
    }
}

/// The player-state events a host emits for a roster, one per entity, in
/// roster order.
pub open spec fn roster_events(s: Seq<RemotePlayer>) -> Seq<NetworkEvent> {
    Seq::new(
        s.len(),
        |i: int|
            NetworkEvent::PlayerState(
                PlayerState { id: s[i].peer.0, position: s[i].position, rotation: s[i].rotation },
            ),
    )
}

/// The event a peer emits for its own player, when it knows its id.
pub open spec fn local_events(local: Option<PlayerState>) -> Seq<NetworkEvent> {
    match local {
        Some(p) => seq![NetworkEvent::PlayerState(p)],
        None => Seq::empty(),
    }
}

/// The remote-owned player entities, one per connected peer.
pub struct PlayerRoster {
    pub players: Vec<RemotePlayer>,
}

impl PlayerRoster {
    /// At most one entity is bound to any peer.
    pub open spec fn wf(self) -> bool {
        distinct_peers(self.players@)
    }

    pub fn new() -> (r: PlayerRoster)
        ensures
            r.players@.len() == 0,
            r.wf(),
    {
        PlayerRoster { players: Vec::new() }
    }

    /// Linear scan for the entity bound to peer `x`.
    fn find(&self, x: u128) -> (r: Option<usize>)
        ensures
            match r {
                Some(k) => k < self.players@.len() && find_bound(self.players@, x) == Some(
                    k as int,
                ),
                None => find_bound(self.players@, x) is None,
            },
    {
        let n: usize = self.players.len();
        let mut i: usize = 0;
        while i < n
            invariant
                i <= n == self.players@.len(),
                forall|j: int| 0 <= j < i ==> self.players@[j].peer.0 != x,
            decreases n - i,
        {
            if self.players[i].peer.0 == x {
                proof {
                    lemma_find_bound_first(self.players@, x, i as int);
                }
                return Some(i);
            }
            i = i + 1;
        }
        proof {
            lemma_find_bound_props(self.players@, x);
            match find_bound(self.players@, x) {
                Some(k) => {
                    assert(self.players@[k].peer.0 == x);
                    assert(false);
                },
                None => {},
            }
        }
        None
    }

    /// On a peer connecting, creates a remote-owned entity bound to it
    /// with default kinematic state; a no-op when one is already bound.
    pub fn connected_handler(&mut self, peer_id: u128)
        requires
            old(self).wf(),
        ensures
            final(self).players@ == spec_connect_player(old(self).players@, peer_id),
            final(self).wf(),
    {
        proof {
            lemma_find_bound_props(self.players@, peer_id);
        }
        match self.find(peer_id) {
            Some(_) => {},
            None => {
                self.players.push(
                    RemotePlayer {
                        peer: PlayerPeerId(peer_id),
                        position: Vec3Bits::zero(),
                        rotation: QuatBits::identity(),
                    },
                );
                proof {
                    let t = final(self).players@;
                    let s = old(self).players@;
                    assert forall|i: int, j: int|
                        0 <= i < j < t.len() implies t[i].peer.0 != t[j].peer.0 by {
                        if j == s.len() {
                            assert(t[i] == s[i]);
                        } else {
                            assert(t[i] == s[i]);
                            assert(t[j] == s[j]);
                        }
                    }
                }
            },
        }
    }

    /// On a peer disconnecting, destroys the entity bound to it; a no-op
    /// when none is bound.
    pub fn disconnected_handler(&mut self, peer_id: u128)
        requires
            old(self).wf(),
        ensures
            final(self).players@ == spec_disconnect_player(old(self).players@, peer_id),
            final(self).wf(),
    {
        match self.find(peer_id) {
            Some(k) => {
                self.players.remove(k);
                proof {
                    let t = final(self).players@;
                    let s = old(self).players@;
                    assert forall|i: int, j: int|
                        0 <= i < j < t.len() implies t[i].peer.0 != t[j].peer.0 by {
                        assert(t[i] == (if i < k {
                            s[i]
                        } else {
                            s[i + 1]
                        }));
                        assert(t[j] == (if j < k {
                            s[j]
                        } else {
                            s[j + 1]
                        }));
                    }
                }
            },
            None => {},
        }
    }

    /// Applies one player-state event: full overwrite of the bound
    /// entity's transform, dropped when the id is not bound.
    pub fn player_state_handler(&mut self, ev: &PlayerState)
        requires
            old(self).wf(),
        ensures
            final(self).players@ == spec_apply_player(old(self).players@, *ev),
            final(self).wf(),
    {
        match self.find(ev.id) {
            Some(k) => {
                let peer: PlayerPeerId = self.players[k].peer;
                self.players[k] =
                RemotePlayer { peer, position: ev.position, rotation: ev.rotation };
                proof {
                    let t = final(self).players@;
                    let s = old(self).players@;
                    assert forall|i: int, j: int|
                        0 <= i < j < t.len() implies t[i].peer.0 != t[j].peer.0 by {
                        assert(t[i].peer == s[i].peer);
                        assert(t[j].peer == s[j].peer);
                    }
                }
            },
            None => {},
        }
    }

    /// Consumes the tick's player-state queue, applying each event in
    /// order.
    pub fn net_read(&mut self, events: &Vec<PlayerState>)
        requires
            old(self).wf(),
        ensures
            final(self).players@ == spec_apply_players(old(self).players@, events@),
            final(self).wf(),
    {
        let n: usize = events.len();
        let mut i: usize = 0;
        while i < n
            invariant
                i <= n == events@.len(),
                self.wf(),
                self.players@ == spec_apply_players(old(self).players@, events@.take(i as int)),
            decreases n - i,
        {
            let ev: PlayerState = events[i];
            self.player_state_handler(&ev);
            proof {
                lemma_apply_players_snoc(
                    old(self).players@,
                    events@.take(i as int),
                    events@[i as int],
                );
                assert(events@.take(i + 1) =~= events@.take(i as int).push(events@[i as int]));
            }
            i = i + 1;
        }
        proof {
            assert(events@.take(n as int) =~= events@);
        }
    }

    /// The player-state events this peer emits at the end of a tick: a
    /// host announces every player it simulates (all remote-owned entities
    /// and its own, once its id is known), a client announces only its own
    /// player, and nothing is emitted while the role is undetermined.
    pub fn net_write(&self, role: ServerState, local: Option<PlayerState>) -> (r: Vec<
        NetworkEvent,
    >)
        ensures
            role is Host ==> r@ == roster_events(self.players@) + local_events(local),
            role is Client ==> r@ == local_events(local),
            role is Unknown ==> r@.len() == 0,
    {
        let mut out: Vec<NetworkEvent> = Vec::new();
        match role {
            ServerState::Host => {
                let n: usize = self.players.len();
                let mut i: usize = 0;
                while i < n
                    invariant
                        i <= n == self.players@.len(),
                        out@ == roster_events(self.players@).take(i as int),
                    decreases n - i,
                {
                    let p: RemotePlayer = self.players[i];
                    out.push(
                        NetworkEvent::PlayerState(
                            PlayerState { id: p.peer.0, position: p.position, rotation: p.rotation },
                        ),
                    );
                    proof {
                        assert(out@ =~= roster_events(self.players@).take(i + 1));
                    }
                    i = i + 1;
                }
                match local {
                    Some(p) => {
                        out.push(NetworkEvent::PlayerState(p));
                    },
                    None => {},
                }
                proof {
                    assert(roster_events(self.players@).take(n as int) =~= roster_events(
                        self.players@,
                    ));
                    assert(out@ =~= roster_events(self.players@) + local_events(local));
                }
            },
            ServerState::Client => {
                match local {
                    Some(p) => {
                        out.push(NetworkEvent::PlayerState(p));
                    },
                    None => {},
                }
                proof {
                    assert(out@ =~= local_events(local));
                }
            },
            ServerState::Unknown => {},
        }
        out
    }
}

/// How many bullet slots are pre-allocated at startup.
pub const MAX_BULLET_COUNT: usize = 1024;

/// How many enemy slots are pre-allocated at startup.
pub const MAX_ENEMY_COUNT: usize = 1024;

/// One pre-allocated enemy slot; its id is its position in the pool.
#[derive(Clone, Copy, Debug, PartialEq, Eq, Structural)]
pub struct EnemySlot {
    pub position: Vec2Bits,
    pub visible: bool,
}

/// One pre-allocated bullet slot; its id is its position in the pool.
#[derive(Clone, Copy, Debug, PartialEq, Eq, Structural)]
pub struct BulletSlot {
    pub position: Vec2Bits,
    pub velocity: Vec2Bits,
    pub visible: bool,
}

/// The pool after one enemy-state event: the slot the id is bound to
/// fully overwritten; an id beyond the pool is dropped silently.
pub open spec fn spec_apply_enemy(s: Seq<EnemySlot>, ev: EnemyState) -> Seq<EnemySlot> {
    if (ev.id as int) < s.len() {
        s.update(ev.id as int, EnemySlot { position: ev.position, visible: ev.visible })
    } else {
        s
    }
}

/// The pool after a batch of enemy-state events, applied in order.
pub open spec fn spec_apply_enemies(s: Seq<EnemySlot>, evs: Seq<EnemyState>) -> Seq<EnemySlot>
    decreases evs.len(),
{
    if evs.len() == 0 {
        s
    } else {
        spec_apply_enemies(spec_apply_enemy(s, evs[0]), evs.drop_first())
    }
}

pub proof fn lemma_apply_enemies_snoc(s: Seq<EnemySlot>, evs: Seq<EnemyState>, ev: EnemyState)
    ensures
        spec_apply_enemies(s, evs.push(ev)) == spec_apply_enemy(spec_apply_enemies(s, evs), ev),
    decreases evs.len(),
{
    reveal_with_fuel(spec_apply_enemies, 3);
    if evs.len() == 0 {
        assert(evs.push(ev)[0] == ev);
        assert(evs.push(ev).drop_first() =~= Seq::<EnemyState>::empty());
    } else {
        assert(evs.push(ev)[0] == evs[0]);
        assert(evs.push(ev).drop_first() =~= evs.drop_first().push(ev));
        lemma_apply_enemies_snoc(spec_apply_enemy(s, evs[0]), evs.drop_first(), ev);
    }
}

/// The pool after one bullet-state event.
pub open spec fn spec_apply_bullet(s: Seq<BulletSlot>, ev: BulletState) -> Seq<BulletSlot> {
    if (ev.id as int) < s.len() {
        s.update(
            ev.id as int,
            BulletSlot { position: ev.position, velocity: ev.velocity, visible: ev.visible },
        )
    } else {
        s
    }
}

/// The pool after a batch of bullet-state events, applied in order.
pub open spec fn spec_apply_bullets(s: Seq<BulletSlot>, evs: Seq<BulletState>) -> Seq<BulletSlot>
    decreases evs.len(),
{
    if evs.len() == 0 {
        s
    } else {
        spec_apply_bullets(spec_apply_bullet(s, evs[0]), evs.drop_first())
    }
}

pub proof fn lemma_apply_bullets_snoc(s: Seq<BulletSlot>, evs: Seq<BulletState>, ev: BulletState)
    ensures
        spec_apply_bullets(s, evs.push(ev)) == spec_apply_bullet(spec_apply_bullets(s, evs), ev),
    decreases evs.len(),
{
    reveal_with_fuel(spec_apply_bullets, 3);
    if evs.len() == 0 {
        assert(evs.push(ev)[0] == ev);
        assert(evs.push(ev).drop_first() =~= Seq::<BulletState>::empty());
    } else {
        assert(evs.push(ev)[0] == evs[0]);
        assert(evs.push(ev).drop_first() =~= evs.drop_first().push(ev));
        lemma_apply_bullets_snoc(spec_apply_bullet(s, evs[0]), evs.drop_first(), ev);
    }
}

/// Pool binding stability: two updates carrying the same id resolve to the
/// same slot, so the later one fully supersedes the earlier and no other
/// slot is touched.
pub proof fn lemma_enemy_binding_stable(s: Seq<EnemySlot>, e1: EnemyState, e2: EnemyState)
    requires
        e1.id == e2.id,
    ensures
        spec_apply_enemy(spec_apply_enemy(s, e1), e2) == spec_apply_enemy(s, e2),
{
    if (e1.id as int) < s.len() {
        assert(spec_apply_enemy(spec_apply_enemy(s, e1), e2) =~= spec_apply_enemy(s, e2));
    }
}

/// Pool binding stability for bullets.
pub proof fn lemma_bullet_binding_stable(s: Seq<BulletSlot>, e1: BulletState, e2: BulletState)
    requires
        e1.id == e2.id,
    ensures
        spec_apply_bullet(spec_apply_bullet(s, e1), e2) == spec_apply_bullet(s, e2),
{
    if (e1.id as int) < s.len() {
        assert(spec_apply_bullet(spec_apply_bullet(s, e1), e2) =~= spec_apply_bullet(s, e2));
    }
}

/// The enemy-state events a host emits for its pool, one per slot.
pub open spec fn enemy_pool_events(s: Seq<EnemySlot>) -> Seq<NetworkEvent> {
    Seq::new(
        s.len(),
        |i: int|
            NetworkEvent::EnemyState(
                EnemyState { id: i as u16, position: s[i].position, visible: s[i].visible },
            ),
    )
}

/// The bullet-state events a host emits for its pool, one per slot.
pub open spec fn bullet_pool_events(s: Seq<BulletSlot>) -> Seq<NetworkEvent> {
    Seq::new(
        s.len(),
        |i: int|
            NetworkEvent::BulletState(
                BulletState {
                    id: i as u32,
                    position: s[i].position,
                    velocity: s[i].velocity,
                    visible: s[i].visible,
                },
            ),
    )
}

/// The fixed pool of enemy entities, sorted by id: slot `i` is the entity
/// with id `i`, so a binding never moves while the pool lives.
pub struct EnemyPool {
    pub slots: Vec<EnemySlot>,
}

impl EnemyPool {
    /// Ids must fit the wire format's 16-bit enemy id.
    pub open spec fn wf(self) -> bool {
        self.slots@.len() <= 0x1_0000
    }

    /// Pre-allocates `n` hidden slots at the origin.
    pub fn new(n: usize) -> (r: EnemyPool)
        requires
            n <= 0x1_0000,
        ensures
            r.slots@.len() == n,
            forall|i: int|
                0 <= i < n ==> r.slots@[i] == (EnemySlot {
                    position: Vec2Bits { x: 0u32, y: 0u32 },
                    visible: false,
                }),
            r.wf(),
    {
        let slot = EnemySlot { position: Vec2Bits::zero(), visible: false };
        let slots: Vec<EnemySlot> = vec![slot; n];
        EnemyPool { slots }
    }

    /// Applies one enemy-state event: full overwrite of the slot the id
    /// resolves to, dropped when the id is beyond the pool.
    pub fn enemy_state_handler(&mut self, ev: &EnemyState)
        ensures
            final(self).slots@ == spec_apply_enemy(old(self).slots@, *ev),
    {
        let idx: usize = ev.id as usize;
        if idx < self.slots.len() {
            self.slots[idx] = EnemySlot { position: ev.position, visible: ev.visible };
        }
    }

    /// Consumes the tick's enemy-state queue: a client applies each event
    /// in order; a host is authoritative for enemies and applies none.
    pub fn net_read(&mut self, role: ServerState, events: &Vec<EnemyState>)
        ensures
            role is Client ==> final(self).slots@ == spec_apply_enemies(
                old(self).slots@,
                events@,
            ),
            !(role is Client) ==> final(self).slots@ == old(self).slots@,
    {
        match role {
            ServerState::Client => {
                let n: usize = events.len();
                let mut i: usize = 0;
                while i < n
                    invariant
                        i <= n == events@.len(),
                        self.slots@ == spec_apply_enemies(
                            old(self).slots@,
                            events@.take(i as int),
                        ),
                    decreases n - i,
                {
                    let ev: EnemyState = events[i];
                    self.enemy_state_handler(&ev);
                    proof {
                        lemma_apply_enemies_snoc(
                            old(self).slots@,
                            events@.take(i as int),
                            events@[i as int],
                        );
                        assert(events@.take(i + 1) =~= events@.take(i as int).push(
                            events@[i as int],
                        ));
                    }
                    i = i + 1;
                }
                proof {
                    assert(events@.take(n as int) =~= events@);
                }
            },
            _ => {},
        }
    }

    /// The enemy-state events this peer emits at the end of a tick: a host
    /// announces every slot, anyone else nothing.
    pub fn net_write(&self, role: ServerState) -> (r: Vec<NetworkEvent>)
        requires
            self.wf(),
        ensures
            role is Host ==> r@ == enemy_pool_events(self.slots@),
            !(role is Host) ==> r@.len() == 0,
    {
        let mut out: Vec<NetworkEvent> = Vec::new();
        match role {
            ServerState::Host => {
                let n: usize = self.slots.len();
                let mut i: usize = 0;
                while i < n
                    invariant
                        i <= n == self.slots@.len(),
                        n <= 0x1_0000,
                        out@ == enemy_pool_events(self.slots@).take(i as int),
                    decreases n - i,
                {
                    let s: EnemySlot = self.slots[i];
                    out.push(
                        NetworkEvent::EnemyState(
                            EnemyState { id: i as u16, position: s.position, visible: s.visible },
                        ),
                    );
                    proof {
                        assert(out@ =~= enemy_pool_events(self.slots@).take(i + 1));
                    }
                    i = i + 1;
                }
                proof {
                    assert(enemy_pool_events(self.slots@).take(n as int) =~= enemy_pool_events(
                        self.slots@,
                    ));
                }
            },
            _ => {},
        }
        out
    }
}

/// The fixed pool of bullet entities, sorted by id: slot `i` is the entity
/// with id `i`.
pub struct BulletPool {
    pub slots: Vec<BulletSlot>,
}

impl BulletPool {
    /// Ids must fit the wire format's 32-bit bullet id.
    pub open spec fn wf(self) -> bool {
        self.slots@.len() <= 0x1_0000_0000
    }

    /// Pre-allocates `n` hidden slots at rest at the origin.
    pub fn new(n: usize) -> (r: BulletPool)
        requires
            n <= 0x1_0000_0000,
        ensures
            r.slots@.len() == n,
            forall|i: int|
                0 <= i < n ==> r.slots@[i] == (BulletSlot {
                    position: Vec2Bits { x: 0u32, y: 0u32 },
                    velocity: Vec2Bits { x: 0u32, y: 0u32 },
                    visible: false,
                }),
            r.wf(),
    {
        let slot = BulletSlot {
            position: Vec2Bits::zero(),
            velocity: Vec2Bits::zero(),
            visible: false,
        };
        let slots: Vec<BulletSlot> = vec![slot; n];
        BulletPool { slots }
    }

    /// Applies one bullet-state event: full overwrite of the slot the id
    /// resolves to, dropped when the id is beyond the pool.
    pub fn bullet_state_handler(&mut self, ev: &BulletState)
        ensures
            final(self).slots@ == spec_apply_bullet(old(self).slots@, *ev),
    {
        let idx: usize = ev.id as usize;
        if idx < self.slots.len() {
            self.slots[idx] =
            BulletSlot { position: ev.position, velocity: ev.velocity, visible: ev.visible };
        }
    }

    /// Consumes the tick's bullet-state queue: a client applies each event
    /// in order; a host is authoritative for bullets and applies none.
    pub fn net_read(&mut self, role: ServerState, events: &Vec<BulletState>)
        ensures
            role is Client ==> final(self).slots@ == spec_apply_bullets(
                old(self).slots@,
                events@,
            ),
            !(role is Client) ==> final(self).slots@ == old(self).slots@,
    {
        match role {
            ServerState::Client => {
                let n: usize = events.len();
                let mut i: usize = 0;
                while i < n
                    invariant
                        i <= n == events@.len(),
                        self.slots@ == spec_apply_bullets(
                            old(self).slots@,
                            events@.take(i as int),
                        ),
                    decreases n - i,
                {
                    let ev: BulletState = events[i];
                    self.bullet_state_handler(&ev);
                    proof {
                        lemma_apply_bullets_snoc(
                            old(self).slots@,
                            events@.take(i as int),
                            events@[i as int],
                        );
                        assert(events@.take(i + 1) =~= events@.take(i as int).push(
                            events@[i as int],
                        ));
                    }
                    i = i + 1;
                }
                proof {
                    assert(events@.take(n as int) =~= events@);
                }
            },
            _ => {},
        }
    }

    /// The bullet-state events this peer emits at the end of a tick: a
    /// host announces every slot, anyone else nothing.
    pub fn net_write(&self, role: ServerState) -> (r: Vec<NetworkEvent>)
        requires
            self.wf(),
        ensures
            role is Host ==> r@ == bullet_pool_events(self.slots@),
            !(role is Host) ==> r@.len() == 0,
    {
        let mut out: Vec<NetworkEvent> = Vec::new();
        match role {
            ServerState::Host => {
                let n: usize = self.slots.len();
                let mut i: usize = 0;
                while i < n
                    invariant
                        i <= n == self.slots@.len(),
                        n <= 0x1_0000_0000,
                        out@ == bullet_pool_events(self.slots@).take(i as int),
                    decreases n - i,
                {
                    let s: BulletSlot = self.slots[i];
                    out.push(
                        NetworkEvent::BulletState(
                            BulletState {
                                id: i as u32,
                                position: s.position,
                                velocity: s.velocity,
                                visible: s.visible,
                            },
                        ),
                    );
                    proof {
                        assert(out@ =~= bullet_pool_events(self.slots@).take(i + 1));
                    }
                    i = i + 1;
                }
                proof {
                    assert(bullet_pool_events(self.slots@).take(n as int) =~= bullet_pool_events(
                        self.slots@,
                    ));
                }
            },
            _ => {},
        }
        out
    }
}

} // verus!
