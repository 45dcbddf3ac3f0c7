//! Event bus: the per-tick outbox of locally produced events and the typed
//! inbound queues that received events are fanned out to.
//!
//! All inbound events decoded within one tick are fully dispatched into the
//! typed queues before any synchronizer subroutine consumes them, so the
//! subroutines observe a consistent per-tick snapshot; each queue is drained
//! once per tick by its consumer.

use vstd::prelude::*;

use crate::packet::{BulletState, EnemyState, NetPacket, NetworkEvent, PlayerState};

verus! {

/// The player-state events of a batch, in arrival order.
pub open spec fn player_events_of(s: Seq<NetworkEvent>) -> Seq<PlayerState>
    decreases s.len(),
{
    if s.len() == 0 {
        Seq::empty()
    } else {
        let rest = player_events_of(s.drop_first());
        match s[0] {
            NetworkEvent::PlayerState(p) => seq![p] + rest,
            _ => rest,
        }
    }
}

/// The enemy-state events of a batch, in arrival order.
pub open spec fn enemy_events_of(s: Seq<NetworkEvent>) -> Seq<EnemyState>
    decreases s.len(),
{
    if s.len() == 0 {
        Seq::empty()
    } else {
        let rest = enemy_events_of(s.drop_first());
        match s[0] {
            NetworkEvent::EnemyState(e) => seq![e] + rest,
            _ => rest,
        }
    }
}

/// The bullet-state events of a batch, in arrival order.
pub open spec fn bullet_events_of(s: Seq<NetworkEvent>) -> Seq<BulletState>
    decreases s.len(),
{
    if s.len() == 0 {
        Seq::empty()
    } else {
        let rest = bullet_events_of(s.drop_first());
        match s[0] {
            NetworkEvent::BulletState(b) => seq![b] + rest,
            _ => rest,
        }
    }
}

pub proof fn lemma_player_events_snoc(s: Seq<NetworkEvent>, e: NetworkEvent)
    ensures
        player_events_of(s.push(e)) == player_events_of(s) + (match e {
            NetworkEvent::PlayerState(p) => seq![p],
            _ => Seq::<PlayerState>::empty(),
        }),
    decreases s.len(),
{
    reveal_with_fuel(player_events_of, 3);
    if s.len() == 0 {
        assert(s.push(e)[0] == e);
        assert(s.push(e).drop_first() =~= Seq::<NetworkEvent>::empty());
        assert(player_events_of(s.push(e)) =~= player_events_of(s) + (match e {
            NetworkEvent::PlayerState(p) => seq![p],
            _ => Seq::<PlayerState>::empty(),
        }));
    } else {
        assert(s.push(e)[0] == s[0]);
        assert(s.push(e).drop_first() =~= s.drop_first().push(e));
        lemma_player_events_snoc(s.drop_first(), e);
        assert(player_events_of(s.push(e)) =~= player_events_of(s) + (match e {
            NetworkEvent::PlayerState(p) => seq![p],
            _ => Seq::<PlayerState>::empty(),
        }));
    }
}

pub proof fn lemma_enemy_events_snoc(s: Seq<NetworkEvent>, e: NetworkEvent)
    ensures
        enemy_events_of(s.push(e)) == enemy_events_of(s) + (match e {
            NetworkEvent::EnemyState(en) => seq![en],
            _ => Seq::<EnemyState>::empty(),
        }),
    decreases s.len(),
{
    reveal_with_fuel(enemy_events_of, 3);
    if s.len() == 0 {
        assert(s.push(e)[0] == e);
        assert(s.push(e).drop_first() =~= Seq::<NetworkEvent>::empty());
        assert(enemy_events_of(s.push(e)) =~= enemy_events_of(s) + (match e {
            NetworkEvent::EnemyState(en) => seq![en],
            _ => Seq::<EnemyState>::empty(),
        }));
    } else {
        assert(s.push(e)[0] == s[0]);
        assert(s.push(e).drop_first() =~= s.drop_first().push(e));
        lemma_enemy_events_snoc(s.drop_first(), e);
        assert(enemy_events_of(s.push(e)) =~= enemy_events_of(s) + (match e {
            NetworkEvent::EnemyState(en) => seq![en],
            _ => Seq::<EnemyState>::empty(),
        }));
    }
}

pub proof fn lemma_bullet_events_snoc(s: Seq<NetworkEvent>, e: NetworkEvent)
    ensures
        bullet_events_of(s.push(e)) == bullet_events_of(s) + (match e {
            NetworkEvent::BulletState(b) => seq![b],
            _ => Seq::<BulletState>::empty(),
        }),
    decreases s.len(),
{
    reveal_with_fuel(bullet_events_of, 3);
    if s.len() == 0 {
        assert(s.push(e)[0] == e);
        assert(s.push(e).drop_first() =~= Seq::<NetworkEvent>::empty());
        assert(bullet_events_of(s.push(e)) =~= bullet_events_of(s) + (match e {
            NetworkEvent::BulletState(b) => seq![b],
            _ => Seq::<BulletState>::empty(),
        }));
    } else {
        assert(s.push(e)[0] == s[0]);
        assert(s.push(e).drop_first() =~= s.drop_first().push(e));
        lemma_bullet_events_snoc(s.drop_first(), e);
        assert(bullet_events_of(s.push(e)) =~= bullet_events_of(s) + (match e {
            NetworkEvent::BulletState(b) => seq![b],
            _ => Seq::<BulletState>::empty(),
        }));
    }
}

/// All the events of a sequence of decoded batches, in arrival order.
pub open spec fn concat_all(pkts: Seq<Seq<NetworkEvent>>) -> Seq<NetworkEvent>
    decreases pkts.len(),
{
    if pkts.len() == 0 {
        Seq::empty()
    } else {
        pkts[0] + concat_all(pkts.drop_first())
    }
}

pub proof fn lemma_concat_all_snoc(pkts: Seq<Seq<NetworkEvent>>, evs: Seq<NetworkEvent>)
    ensures
        concat_all(pkts.push(evs)) == concat_all(pkts) + evs,
    decreases pkts.len(),
{
    reveal_with_fuel(concat_all, 3);
    if pkts.len() == 0 {
        assert(pkts.push(evs)[0] == evs);
        assert(pkts.push(evs).drop_first() =~= Seq::<Seq<NetworkEvent>>::empty());
        assert(concat_all(pkts.push(evs)) =~= concat_all(pkts) + evs);
    } else {
        assert(pkts.push(evs)[0] == pkts[0]);
        assert(pkts.push(evs).drop_first() =~= pkts.drop_first().push(evs));
        lemma_concat_all_snoc(pkts.drop_first(), evs);
        assert(concat_all(pkts.push(evs)) =~= concat_all(pkts) + evs);
    }
}

pub proof fn lemma_player_events_concat(a: Seq<NetworkEvent>, b: Seq<NetworkEvent>)
    ensures
        player_events_of(a + b) == player_events_of(a) + player_events_of(b),
    decreases a.len(),
{
    if a.len() == 0 {
        assert(a + b =~= b);
        assert(player_events_of(a) + player_events_of(b) =~= player_events_of(b));
    } else {
        assert((a + b)[0] == a[0]);
        assert((a + b).drop_first() =~= a.drop_first() + b);
        lemma_player_events_concat(a.drop_first(), b);
        assert(player_events_of(a + b) =~= player_events_of(a) + player_events_of(b));
    }
}

pub proof fn lemma_enemy_events_concat(a: Seq<NetworkEvent>, b: Seq<NetworkEvent>)
    ensures
        enemy_events_of(a + b) == enemy_events_of(a) + enemy_events_of(b),
    decreases a.len(),
{
    if a.len() == 0 {
        assert(a + b =~= b);
        assert(enemy_events_of(a) + enemy_events_of(b) =~= enemy_events_of(b));
    } else {
        assert((a + b)[0] == a[0]);
        assert((a + b).drop_first() =~= a.drop_first() + b);
        lemma_enemy_events_concat(a.drop_first(), b);
        assert(enemy_events_of(a + b) =~= enemy_events_of(a) + enemy_events_of(b));
    }
}

pub proof fn lemma_bullet_events_concat(a: Seq<NetworkEvent>, b: Seq<NetworkEvent>)
    ensures
        bullet_events_of(a + b) == bullet_events_of(a) + bullet_events_of(b),
    decreases a.len(),
{
    if a.len() == 0 {
        assert(a + b =~= b);
        assert(bullet_events_of(a) + bullet_events_of(b) =~= bullet_events_of(b));
    } else {
        assert((a + b)[0] == a[0]);
        assert((a + b).drop_first() =~= a.drop_first() + b);
        lemma_bullet_events_concat(a.drop_first(), b);
        assert(bullet_events_of(a + b) =~= bullet_events_of(a) + bullet_events_of(b));
    }
}

/// Typed inbound queues, one per event kind, filled by dispatch and drained
/// once per tick by the synchronizer subroutines.
pub struct Inbox {
    pub player_states: Vec<PlayerState>,
    pub enemy_states: Vec<EnemyState>,
    pub bullet_states: Vec<BulletState>,
}

impl Inbox {
    pub fn new() -> (r: Inbox)
        ensures
            r.player_states@.len() == 0,
            r.enemy_states@.len() == 0,
            r.bullet_states@.len() == 0,
    {
        Inbox { player_states: Vec::new(), enemy_states: Vec::new(), bullet_states: Vec::new() }
    }

    /// Fans the events of one decoded packet out to the typed queues, in
    /// arrival order.
    pub fn dispatch(&mut self, packet: &NetPacket)
        ensures
            final(self).player_states@ == old(self).player_states@ + player_events_of(packet@),
            final(self).enemy_states@ == old(self).enemy_states@ + enemy_events_of(packet@),
            final(self).bullet_states@ == old(self).bullet_states@ + bullet_events_of(packet@),
    {
        let n: usize = packet.0.len();
        let mut i: usize = 0;
        while i < n
            invariant
                i <= n == packet@.len(),
                self.player_states@ == old(self).player_states@ + player_events_of(
                    packet@.take(i as int),
                ),
                self.enemy_states@ == old(self).enemy_states@ + enemy_events_of(
                    packet@.take(i as int),
                ),
                self.bullet_states@ == old(self).bullet_states@ + bullet_events_of(
                    packet@.take(i as int),
                ),
            decreases n - i,
        {
            let e: NetworkEvent = packet.0[i];
            proof {
                lemma_player_events_snoc(packet@.take(i as int), packet@[i as int]);
                lemma_enemy_events_snoc(packet@.take(i as int), packet@[i as int]);
                lemma_bullet_events_snoc(packet@.take(i as int), packet@[i as int]);
                assert(packet@.take(i + 1) =~= packet@.take(i as int).push(packet@[i as int]));
            }
            match e {
                NetworkEvent::PlayerState(p) => {
                    self.player_states.push(p);
                    proof {
                        assert(self.player_states@ =~= old(self).player_states@ + player_events_of(
                            packet@.take(i + 1),
                        ));
                        assert(self.enemy_states@ =~= old(self).enemy_states@ + enemy_events_of(
                            packet@.take(i + 1),
                        ));
                        assert(self.bullet_states@ =~= old(self).bullet_states@ + bullet_events_of(
                            packet@.take(i + 1),
                        ));
                    }
                },
                NetworkEvent::EnemyState(en) => {
                    self.enemy_states.push(en);
                    proof {
                        assert(self.player_states@ =~= old(self).player_states@ + player_events_of(
                            packet@.take(i + 1),
                        ));
                        assert(self.enemy_states@ =~= old(self).enemy_states@ + enemy_events_of(
                            packet@.take(i + 1),
                        ));
                        assert(self.bullet_states@ =~= old(self).bullet_states@ + bullet_events_of(
                            packet@.take(i + 1),
                        ));
                    }
                },
                NetworkEvent::BulletState(b) => {
                    self.bullet_states.push(b);
                    proof {
                        assert(self.player_states@ =~= old(self).player_states@ + player_events_of(
                            packet@.take(i + 1),
                        ));
                        assert(self.enemy_states@ =~= old(self).enemy_states@ + enemy_events_of(
                            packet@.take(i + 1),
                        ));
                        assert(self.bullet_states@ =~= old(self).bullet_states@ + bullet_events_of(
                            packet@.take(i + 1),
                        ));
                    }
                },
            }
            i = i + 1;
        }
        proof {
            assert(packet@.take(n as int) =~= packet@);
        }
    }

    /// Drains the player-state queue for its per-tick consumer.
    pub fn take_player_states(&mut self) -> (r: Vec<PlayerState>)
        ensures
            r@ == old(self).player_states@,
            final(self).player_states@.len() == 0,
            final(self).enemy_states@ == old(self).enemy_states@,
            final(self).bullet_states@ == old(self).bullet_states@,
    {
        let mut out: Vec<PlayerState> = Vec::new();
        core::mem::swap(&mut out, &mut self.player_states);
        out
    }

    /// Drains the enemy-state queue for its per-tick consumer.
    pub fn take_enemy_states(&mut self) -> (r: Vec<EnemyState>)
        ensures
            r@ == old(self).enemy_states@,
            final(self).enemy_states@.len() == 0,
            final(self).player_states@ == old(self).player_states@,
            final(self).bullet_states@ == old(self).bullet_states@,
    {
        let mut out: Vec<EnemyState> = Vec::new();
        core::mem::swap(&mut out, &mut self.enemy_states);
        out
    }

    /// Drains the bullet-state queue for its per-tick consumer.
    pub fn take_bullet_states(&mut self) -> (r: Vec<BulletState>)
        ensures
            r@ == old(self).bullet_states@,
            final(self).bullet_states@.len() == 0,
            final(self).player_states@ == old(self).player_states@,
            final(self).enemy_states@ == old(self).enemy_states@,
    {
        let mut out: Vec<BulletState> = Vec::new();
        core::mem::swap(&mut out, &mut self.bullet_states);
        out
    }
}

/// The per-tick outbox: locally produced events batched until the end of
/// the tick, then flushed as one packet.
pub struct Outbox {
    pub events: Vec<NetworkEvent>,
}

impl Outbox {
    pub fn new() -> (r: Outbox)
        ensures
            r.events@.len() == 0,
    {
        Outbox { events: Vec::new() }
    }

    /// Queues one event for the flush at the end of the tick.
    pub fn send(&mut self, e: NetworkEvent)
        ensures
            final(self).events@ == old(self).events@.push(e),
    {
        self.events.push(e);
    }

    /// Queues a whole batch of events, keeping their order.
    pub fn send_batch(&mut self, mut batch: Vec<NetworkEvent>)
        ensures
            final(self).events@ == old(self).events@ + batch@,
    {
        self.events.append(&mut batch);
    }

    /// Takes the tick's batch as one packet; `None` when nothing was
    /// produced, so that nothing is transmitted. The outbox is empty after.
    pub fn flush(&mut self) -> (r: Option<NetPacket>)
        ensures
            final(self).events@.len() == 0,
            old(self).events@.len() == 0 ==> r is None,
            old(self).events@.len() > 0 ==> (r matches Some(p) && p@ == old(self).events@),
    {
        if self.events.len() == 0 {
            None
        } else {
            let mut out: Vec<NetworkEvent> = Vec::new();
            core::mem::swap(&mut out, &mut self.events);
            Some(NetPacket(out))
        }
    }
}

} // verus!
