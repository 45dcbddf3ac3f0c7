//! Peer session management: the connected-peer list, the once-per-session
//! host/client role determination, and the per-tick orchestration that
//! turns transport input (peer transitions, received bytes) into dispatched
//! events and one broadcast wire unit.

use vstd::prelude::*;

use crate::bus::{bullet_events_of, concat_all, enemy_events_of, lemma_bullet_events_concat, lemma_concat_all_snoc, lemma_enemy_events_concat, lemma_player_events_concat, player_events_of, Inbox, Outbox};
use crate::packet::{Connected, Disconnected, NetworkEvent};

verus! {

/// Whether this process is the authoritative host or a following client.
/// `Unknown` until the first peer-list snapshot is observed; immutable once
/// set away from `Unknown`.
#[derive(Clone, Copy, Debug, PartialEq, Eq, Structural)]
pub enum ServerState {
    Host,
    Client,
    Unknown,
}

/// The local player's own identifier, once the signaling server assigned
/// one.
#[derive(Clone, Copy, Debug, PartialEq, Eq, Structural)]
pub struct PlayerId(pub usize);

/// Binding of a local simulation entity to the remote peer that owns it.
#[derive(Clone, Copy, Debug, PartialEq, Eq, Structural)]
pub struct PlayerPeerId(pub u128);

/// Session configuration: the room the signaling relay matches peers in.
#[derive(Clone, Debug)]
pub struct NetData {
    pub room: String,
}

/// One edge-triggered peer transition reported by the transport since the
/// last poll.
#[derive(Clone, Copy, Debug, PartialEq, Eq, Structural)]
pub struct PeerUpdate {
    pub peer_id: u128,
    pub connected: bool,
}

/// The decimal digit characters of `v`, most significant first.
pub open spec fn dec_digits(v: nat) -> Seq<char>
    decreases v,
{
    if v < 10 {
        seq![digit_char(v)]
    } else {
        dec_digits(v / 10) + seq![digit_char(v % 10)]
    }
}

/// The character for one decimal digit.
pub open spec fn digit_char(d: nat) -> char {
    if d == 0 {
        '0'
    } else if d == 1 {
        '1'
    } else if d == 2 {
        '2'
    } else if d == 3 {
        '3'
    } else if d == 4 {
        '4'
    } else if d == 5 {
        '5'
    } else if d == 6 {
        '6'
    } else if d == 7 {
        '7'
    } else if d == 8 {
        '8'
    } else {
        '9'
    }
}

/// The one-character string for a decimal digit.
fn digit_str(d: u8) -> (r: &'static str)
    requires
        d < 10,
    ensures
        r@ == seq![digit_char(d as nat)],
{
    proof {
        reveal_strlit("0");
        reveal_strlit("1");
        reveal_strlit("2");
        reveal_strlit("3");
        reveal_strlit("4");
        reveal_strlit("5");
        reveal_strlit("6");
        reveal_strlit("7");
        reveal_strlit("8");
        reveal_strlit("9");
    }
    let r: &'static str = match d {
        0 => "0",
        1 => "1",
        2 => "2",
        3 => "3",
        4 => "4",
        5 => "5",
        6 => "6",
        7 => "7",
        8 => "8",
        _ => "9",
    };
    proof {
        assert(r@ =~= seq![digit_char(d as nat)]);
    }
    r
}

/// Appends the decimal digits of `v` to `s`.
fn push_decimal(s: String, v: u8) -> (r: String)
    ensures
        r@ == s@ + dec_digits(v as nat),
    decreases v,
{
    if v < 10 {
        s.concat(digit_str(v))
    } else {
        let high: u8 = v / 10;
        let low: u8 = v % 10;
        let s2 = push_decimal(s, high);
        let r = s2.concat(digit_str(low));
        proof {
            assert(r@ =~= s@ + dec_digits(v as nat));
        }
        r
    }
}

/// The URL a session connects to the signaling relay with: the relay's
/// base, the room under it, and the desired peer count as the `next`
/// query parameter.
pub fn room_url(base: &str, room: &str, players: u8) -> (r: String)
    ensures
        r@ == base@ + "/"@ + room@ + "?next="@ + dec_digits(players as nat),
{
    let url = String::from_str(base).concat("/").concat(room).concat("?next=");
    let r = push_decimal(url, players);
    proof {
        assert(r@ =~= base@ + "/"@ + room@ + "?next="@ + dec_digits(players as nat));
    }
    r
}

/// The role after one determination step: an unknown role is fixed by the
/// observed peer count, a determined role never changes.
pub open spec fn spec_determine_role(role: ServerState, peer_count: nat) -> ServerState {
    if role is Unknown {
        if peer_count == 0 {
            ServerState::Host
        } else {
            ServerState::Client
        }
    } else {
        role
    }
}

/// Role determinism: the first determination fixes Host exactly when no
/// peer was present, Client otherwise, and every later determination, with
/// whatever count it observes, leaves the role as it is.
pub proof fn lemma_role_determinism(first_count: nat, later_count: nat)
    ensures
        spec_determine_role(ServerState::Unknown, first_count) == (if first_count == 0 {
            ServerState::Host
        } else {
            ServerState::Client
        }),
        spec_determine_role(
            spec_determine_role(ServerState::Unknown, first_count),
            later_count,
        ) == spec_determine_role(ServerState::Unknown, first_count),
{
}

/// First position of `x` in `s`, if any.
pub open spec fn find_id(s: Seq<u128>, x: u128) -> Option<int>
    decreases s.len(),
{
    if s.len() == 0 {
        None
    } else if s[0] == x {
        Some(0int)
    } else {
        match find_id(s.drop_first(), x) {
            None => None,
            Some(i) => Some(i + 1),
        }
    }
}

pub proof fn lemma_find_id_props(s: Seq<u128>, x: u128)
    ensures
        match find_id(s, x) {
            None => forall|i: int| 0 <= i < s.len() ==> s[i] != x,
            Some(i) => 0 <= i < s.len() && s[i] == x,
        },
    decreases s.len(),
{
    if s.len() > 0 {
        lemma_find_id_props(s.drop_first(), x);
        if s[0] != x {
            match find_id(s.drop_first(), x) {
                None => {
                    assert forall|i: int| 0 <= i < s.len() implies s[i] != x by {
                        if i > 0 {
                            assert(s.drop_first()[i - 1] == s[i]);
                        }
                    }
                },
                Some(_) => {},
            }
        }
    }
}

/// Peers hold pairwise distinct identifiers.
pub open spec fn distinct_ids(s: Seq<u128>) -> bool {
    forall|i: int, j: int| 0 <= i < j < s.len() ==> s[i] != s[j]
}

/// The peer list after a connect notification: appended unless already
/// present.
pub open spec fn spec_peer_connect(s: Seq<u128>, x: u128) -> Seq<u128> {
    match find_id(s, x) {
        Some(_) => s,
        None => s.push(x),
    }
}

/// The peer list after a disconnect notification: the peer removed, a
/// no-op when it was never listed.
pub open spec fn spec_peer_disconnect(s: Seq<u128>, x: u128) -> Seq<u128> {
    match find_id(s, x) {
        Some(i) => s.remove(i),
        None => s,
    }
}

/// The peer list after one transition.
pub open spec fn spec_apply_update(s: Seq<u128>, u: PeerUpdate) -> Seq<u128> {
    if u.connected {
        spec_peer_connect(s, u.peer_id)
    } else {
        spec_peer_disconnect(s, u.peer_id)
    }
}

/// The peer list after a batch of transitions, applied in order.
pub open spec fn spec_apply_updates(s: Seq<u128>, us: Seq<PeerUpdate>) -> Seq<u128>
    decreases us.len(),
{
    if us.len() == 0 {
        s
    } else {
        spec_apply_updates(spec_apply_update(s, us[0]), us.drop_first())
    }
}

pub proof fn lemma_apply_updates_snoc(s: Seq<u128>, us: Seq<PeerUpdate>, u: PeerUpdate)
    ensures
        spec_apply_updates(s, us.push(u)) == spec_apply_update(spec_apply_updates(s, us), u),
    decreases us.len(),
{
    reveal_with_fuel(spec_apply_updates, 3);
    if us.len() == 0 {
        assert(us.push(u)[0] == u);
        assert(us.push(u).drop_first() =~= Seq::<PeerUpdate>::empty());
    } else {
        assert(us.push(u)[0] == us[0]);
        assert(us.push(u).drop_first() =~= us.drop_first().push(u));
        lemma_apply_updates_snoc(spec_apply_update(s, us[0]), us.drop_first(), u);
    }
}

pub proof fn lemma_connect_distinct(s: Seq<u128>, x: u128)
    requires
        distinct_ids(s),
    ensures
        distinct_ids(spec_peer_connect(s, x)),
{
    lemma_find_id_props(s, x);
    match find_id(s, x) {
        Some(_) => {},
        None => {
            let t = s.push(x);
            assert forall|i: int, j: int| 0 <= i < j < t.len() implies t[i] != t[j] by {
                if j == s.len() {
                    assert(t[i] == s[i]);
                    assert(t[j] == x);
                } else {
                    assert(t[i] == s[i]);
                    assert(t[j] == s[j]);
                }
            }
        },
    }
}

pub proof fn lemma_disconnect_distinct(s: Seq<u128>, x: u128)
    requires
        distinct_ids(s),
    ensures
        distinct_ids(spec_peer_disconnect(s, x)),
{
    lemma_find_id_props(s, x);
    match find_id(s, x) {
        None => {},
        Some(k) => {
            let t = s.remove(k);
            assert forall|i: int, j: int| 0 <= i < j < t.len() implies t[i] != t[j] by {
                assert(t[i] == (if i < k {
                    s[i]
                } else {
                    s[i + 1]
                }));
                assert(t[j] == (if j < k {
                    s[j]
                } else {
                    s[j + 1]
                }));
            }
        },
    }
}

/// The connect notifications of a batch of transitions, in order.
pub open spec fn connected_of(us: Seq<PeerUpdate>) -> Seq<Connected>
    decreases us.len(),
{
    if us.len() == 0 {
        Seq::empty()
    } else {
        let rest = connected_of(us.drop_first());
        if us[0].connected {
            seq![Connected { peer_id: us[0].peer_id }] + rest
        } else {
            rest
        }
    }
}

/// The disconnect notifications of a batch of transitions, in order.
pub open spec fn disconnected_of(us: Seq<PeerUpdate>) -> Seq<Disconnected>
    decreases us.len(),
{
    if us.len() == 0 {
        Seq::empty()
    } else {
        let rest = disconnected_of(us.drop_first());
        if !us[0].connected {
            seq![Disconnected { peer_id: us[0].peer_id }] + rest
        } else {
            rest
        }
    }
}

pub proof fn lemma_connected_of_snoc(us: Seq<PeerUpdate>, u: PeerUpdate)
    ensures
        connected_of(us.push(u)) == connected_of(us) + (if u.connected {
            seq![Connected { peer_id: u.peer_id }]
        } else {
            Seq::<Connected>::empty()
        }),
    decreases us.len(),
{
    reveal_with_fuel(connected_of, 3);
    if us.len() == 0 {
        assert(us.push(u)[0] == u);
        assert(us.push(u).drop_first() =~= Seq::<PeerUpdate>::empty());
        assert(connected_of(us.push(u)) =~= connected_of(us) + (if u.connected {
            seq![Connected { peer_id: u.peer_id }]
        } else {
            Seq::<Connected>::empty()
        }));
    } else {
        assert(us.push(u)[0] == us[0]);
        assert(us.push(u).drop_first() =~= us.drop_first().push(u));
        lemma_connected_of_snoc(us.drop_first(), u);
        assert(connected_of(us.push(u)) =~= connected_of(us) + (if u.connected {
            seq![Connected { peer_id: u.peer_id }]
        } else {
            Seq::<Connected>::empty()
        }));
    }
}

pub proof fn lemma_disconnected_of_snoc(us: Seq<PeerUpdate>, u: PeerUpdate)
    ensures
        disconnected_of(us.push(u)) == disconnected_of(us) + (if !u.connected {
            seq![Disconnected { peer_id: u.peer_id }]
        } else {
            Seq::<Disconnected>::empty()
        }),
    decreases us.len(),
{
    reveal_with_fuel(disconnected_of, 3);
    if us.len() == 0 {
        assert(us.push(u)[0] == u);
        assert(us.push(u).drop_first() =~= Seq::<PeerUpdate>::empty());
        assert(disconnected_of(us.push(u)) =~= disconnected_of(us) + (if !u.connected {
            seq![Disconnected { peer_id: u.peer_id }]
        } else {
            Seq::<Disconnected>::empty()
        }));
    } else {
        assert(us.push(u)[0] == us[0]);
        assert(us.push(u).drop_first() =~= us.drop_first().push(u));
        lemma_disconnected_of_snoc(us.drop_first(), u);
        assert(disconnected_of(us.push(u)) =~= disconnected_of(us) + (if !u.connected {
            seq![Disconnected { peer_id: u.peer_id }]
        } else {
            Seq::<Disconnected>::empty()
        }));
    }
}

/// The session's network state: role, connected peers, and the event bus
/// queues, mutated only during the poll step of the tick and read-only for
/// the rest of the tick.
pub struct SessionContext {
    pub role: ServerState,
    pub peers: Vec<u128>,
    pub inbox: Inbox,
    pub outbox: Outbox,
}

impl SessionContext {
    /// The peer list never lists one peer twice.
    pub open spec fn wf(self) -> bool {
        distinct_ids(self.peers@)
    }

    pub fn new() -> (r: SessionContext)
        ensures
            r.role == ServerState::Unknown,
            r.peers@.len() == 0,
            r.inbox.player_states@.len() == 0,
            r.inbox.enemy_states@.len() == 0,
            r.inbox.bullet_states@.len() == 0,
            r.outbox.events@.len() == 0,
            r.wf(),
    {
        SessionContext {
            role: ServerState::Unknown,
            peers: Vec::new(),
            inbox: Inbox::new(),
            outbox: Outbox::new(),
        }
    }

    /// On its first call fixes the role from the observed peer count: Host
    /// when no peer is present, Client otherwise. Later calls are no-ops.
    pub fn determine_role_once(&mut self, current_peer_count: usize)
        ensures
            final(self).role == spec_determine_role(old(self).role, current_peer_count as nat),
            final(self).peers == old(self).peers,
            final(self).inbox == old(self).inbox,
            final(self).outbox == old(self).outbox,
    {
        match self.role {
            ServerState::Unknown => {
                if current_peer_count == 0 {
                    self.role = ServerState::Host;
                } else {
                    self.role = ServerState::Client;
                }
            },
            _ => {},
        }
    }

    /// Records one peer transition in the peer list.
    fn apply_peer_update(&mut self, u: &PeerUpdate)
        requires
            old(self).wf(),
        ensures
            final(self).peers@ == spec_apply_update(old(self).peers@, *u),
            final(self).wf(),
            final(self).role == old(self).role,
            final(self).inbox == old(self).inbox,
            final(self).outbox == old(self).outbox,
    {
        proof {
            lemma_connect_distinct(self.peers@, u.peer_id);
            lemma_disconnect_distinct(self.peers@, u.peer_id);
        }
        let found: Option<usize> = find_index(&self.peers, u.peer_id);
        if u.connected {
            match found {
                Some(_) => {},
                None => {
                    self.peers.push(u.peer_id);
                },
            }
        } else {
            match found {
                Some(k) => {
                    self.peers.remove(k);
                },
                None => {},
            }
        }
    }
}

/// What one tick of the poll step hands back to the transport layer: the
/// peer transitions to act on and the bytes to send to every connected
/// peer, if this tick produced any events.
pub struct TickIo {
    pub connected: Vec<Connected>,
    pub disconnected: Vec<Disconnected>,
    pub broadcast: Option<Vec<u8>>,
}

impl SessionContext {
    /// One poll step: records the tick's peer transitions, fixes the role
    /// on the first observation, decodes every received wire unit and fans
    /// its events out to the typed inbound queues (undecodable units are
    /// dropped), and flushes the outbox into one broadcast wire unit.
    ///
    /// All inbound events are dispatched before this returns, so the
    /// synchronizer subroutines that run afterwards observe a complete
    /// per-tick snapshot.
    pub fn read_events(&mut self, peer_updates: &Vec<PeerUpdate>, incoming: &Vec<Vec<u8>>) -> (r:
        TickIo)
        requires
            old(self).wf(),
        ensures
            final(self).wf(),
            final(self).peers@ == spec_apply_updates(old(self).peers@, peer_updates@),
            final(self).role == spec_determine_role(
                old(self).role,
                spec_apply_updates(old(self).peers@, peer_updates@).len(),
            ),
            r.connected@ == connected_of(peer_updates@),
            r.disconnected@ == disconnected_of(peer_updates@),
            final(self).outbox.events@.len() == 0,
            old(self).outbox.events@.len() == 0 ==> r.broadcast is None,
            old(self).outbox.events@.len() > 0 ==> (r.broadcast matches Some(v) && v@
                == crate::codec::spec_wire_encode(old(self).outbox.events@)),
            exists|pkts: Seq<Seq<NetworkEvent>>|
                {
                    &&& pkts.len() == incoming@.len()
                    &&& (forall|k: int, s: Seq<NetworkEvent>|
                        #![trigger pkts[k], crate::codec::spec_wire_encode(s)]
                        0 <= k < pkts.len() && incoming@[k]@ == crate::codec::spec_wire_encode(s)
                            && s.len() < 0x1_0000_0000_0000_0000 ==> pkts[k] == s)
                    &&& final(self).inbox.player_states@ == old(self).inbox.player_states@
                        + player_events_of(concat_all(pkts))
                    &&& final(self).inbox.enemy_states@ == old(self).inbox.enemy_states@
                        + enemy_events_of(concat_all(pkts))
                    &&& final(self).inbox.bullet_states@ == old(self).inbox.bullet_states@
                        + bullet_events_of(concat_all(pkts))
                },
    {
        let mut connected: Vec<Connected> = Vec::new();
        let mut disconnected: Vec<Disconnected> = Vec::new();
        let nu: usize = peer_updates.len();
        let mut i: usize = 0;
        while i < nu
            invariant
                i <= nu == peer_updates@.len(),
                self.wf(),
                self.peers@ == spec_apply_updates(old(self).peers@, peer_updates@.take(i as int)),
                connected@ == connected_of(peer_updates@.take(i as int)),
                disconnected@ == disconnected_of(peer_updates@.take(i as int)),
                self.role == old(self).role,
                self.inbox == old(self).inbox,
                self.outbox == old(self).outbox,
            decreases nu - i,
        {
            let u: PeerUpdate = peer_updates[i];
            if u.connected {
                connected.push(Connected { peer_id: u.peer_id });
            } else {
                disconnected.push(Disconnected { peer_id: u.peer_id });
            }
            self.apply_peer_update(&u);
            proof {
                lemma_apply_updates_snoc(
                    old(self).peers@,
                    peer_updates@.take(i as int),
                    peer_updates@[i as int],
                );
                lemma_connected_of_snoc(peer_updates@.take(i as int), peer_updates@[i as int]);
                lemma_disconnected_of_snoc(peer_updates@.take(i as int), peer_updates@[i as int]);
                assert(peer_updates@.take(i + 1) =~= peer_updates@.take(i as int).push(
                    peer_updates@[i as int],
                ));
                assert(connected@ =~= connected_of(peer_updates@.take(i + 1)));
                assert(disconnected@ =~= disconnected_of(peer_updates@.take(i + 1)));
            }
            i = i + 1;
        }
        proof {
            assert(peer_updates@.take(nu as int) =~= peer_updates@);
        }
        let count: usize = self.peers.len();
        self.determine_role_once(count);
        let ghost mid_role = self.role;
        let ghost mid_peers = self.peers;
        let ghost mid_outbox = self.outbox;
        let ghost mut pkts: Seq<Seq<NetworkEvent>> = Seq::empty();
        let ni: usize = incoming.len();
        let mut j: usize = 0;
        while j < ni
            invariant
                j <= ni == incoming@.len(),
                pkts.len() == j,
                forall|k: int, s: Seq<NetworkEvent>|
                    #![trigger pkts[k], crate::codec::spec_wire_encode(s)]
                    0 <= k < j && incoming@[k]@ == crate::codec::spec_wire_encode(s) && s.len()
                        < 0x1_0000_0000_0000_0000 ==> pkts[k] == s,
                self.inbox.player_states@ == old(self).inbox.player_states@ + player_events_of(
                    concat_all(pkts),
                ),
                self.inbox.enemy_states@ == old(self).inbox.enemy_states@ + enemy_events_of(
                    concat_all(pkts),
                ),
                self.inbox.bullet_states@ == old(self).inbox.bullet_states@ + bullet_events_of(
                    concat_all(pkts),
                ),
                self.role == mid_role,
                self.peers == mid_peers,
                self.outbox == mid_outbox,
                self.wf(),
            decreases ni - j,
        {
            let bytes: &Vec<u8> = &incoming[j];
            let decoded = crate::codec::bytes_to_net_packet(bytes.as_slice());
            match decoded {
                Some(p) => {
                    self.inbox.dispatch(&p);
                    proof {
                        lemma_concat_all_snoc(pkts, p@);
                        lemma_player_events_concat(concat_all(pkts), p@);
                        lemma_enemy_events_concat(concat_all(pkts), p@);
                        lemma_bullet_events_concat(concat_all(pkts), p@);
                        pkts = pkts.push(p@);
                    }
                },
                None => {
                    proof {
                        lemma_concat_all_snoc(pkts, Seq::<NetworkEvent>::empty());
                        lemma_player_events_concat(concat_all(pkts), Seq::empty());
                        lemma_enemy_events_concat(concat_all(pkts), Seq::empty());
                        lemma_bullet_events_concat(concat_all(pkts), Seq::empty());
                        assert(concat_all(pkts) + Seq::<NetworkEvent>::empty() =~= concat_all(
                            pkts,
                        ));
                        pkts = pkts.push(Seq::<NetworkEvent>::empty());
                    }
                },
            }
            j = j + 1;
        }
        let flushed = self.outbox.flush();
        let broadcast: Option<Vec<u8>> = match flushed {
            Some(p) => Some(crate::codec::net_packet_to_bytes(&p)),
            None => None,
        };
        TickIo { connected, disconnected, broadcast }
    }
}

/// Linear scan for the first position holding `x`.
fn find_index(v: &Vec<u128>, x: u128) -> (r: Option<usize>)
    ensures
        match r {
            Some(k) => k < v@.len() && v@[k as int] == x && find_id(v@, x) == Some(k as int),
            None => find_id(v@, x) is None,
        },
{
    let n: usize = v.len();
    let mut i: usize = 0;
    while i < n
        invariant
            i <= n == v@.len(),
            forall|j: int| 0 <= j < i ==> v@[j] != x,
        decreases n - i,
    {
        if v[i] == x {
            proof {
                lemma_find_id_first(v@, x, i as int);
            }
            return Some(i);
        }
        i = i + 1;
    }
    proof {
        lemma_find_id_props(v@, x);
        match find_id(v@, x) {
            Some(k) => {
                assert(v@[k] == x);
                assert(false);
            },
            None => {},
        }
    }
    None
}

/// If `s[k] == x` and nothing before `k` equals `x`, the first position of
/// `x` is `k`.
pub proof fn lemma_find_id_first(s: Seq<u128>, x: u128, k: int)
    requires
        0 <= k < s.len(),
        s[k] == x,
        forall|j: int| 0 <= j < k ==> s[j] != x,
    ensures
        find_id(s, x) == Some(k),
    decreases s.len(),
{
    if k == 0 {
    } else {
        assert(s.drop_first()[k - 1] == x);
        assert forall|j: int| 0 <= j < k - 1 implies s.drop_first()[j] != x by {
            assert(s.drop_first()[j] == s[j + 1]);
        }
        lemma_find_id_first(s.drop_first(), x, k - 1);
    }
}

} // verus!
