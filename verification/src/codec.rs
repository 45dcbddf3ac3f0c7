//! Wire codec: a compact binary encoding of an event batch, with
//! size-adaptive zlib compression.
//!
//! Layout of one wire unit: the serialized payload followed by one trailing
//! flag byte, `0` when the payload is raw and `1` when it is compressed.
//! The payload itself is a little-endian event count followed by the events,
//! each a fixed variant tag and its fields in declaration order.
//!
//! Encoding and decoding are exact inverses; malformed or truncated bytes
//! decode to `None` and never panic.

use vstd::prelude::*;

use crate::packet::{BulletState, EnemyState, NetPacket, NetworkEvent, PlayerState, QuatBits,
    Vec2Bits, Vec3Bits};

verus! {

/// Payloads longer than this many bytes are compressed before transmission.
pub const MAX_UNCOMPRESSED_SIZE: usize = 256;

/// 256 raised to `n`: the number of values `n` bytes can hold.
pub open spec fn pow256(n: nat) -> nat
    decreases n,
{
    if n == 0 {
        1
    } else {
        256 * pow256((n - 1) as nat)
    }
}

/// The `n` little-endian bytes of `v` (high bits beyond `n` bytes dropped).
pub open spec fn le_bytes(v: nat, n: nat) -> Seq<u8>
    decreases n,
{
    if n == 0 {
        Seq::empty()
    } else {
        seq![(v % 256) as u8] + le_bytes(v / 256, (n - 1) as nat)
    }
}

/// The value the bytes of `s` hold, read little-endian.
pub open spec fn le_val(s: Seq<u8>) -> nat
    decreases s.len(),
{
    if s.len() == 0 {
        0
    } else {
        (s[0] + 256 * le_val(s.drop_first())) as nat
    }
}

pub proof fn lemma_le_bytes_len(v: nat, n: nat)
    ensures
        le_bytes(v, n).len() == n,
    decreases n,
{
    if n > 0 {
        lemma_le_bytes_len(v / 256, (n - 1) as nat);
    }
}

pub proof fn lemma_le_val_bound(s: Seq<u8>)
    ensures
        le_val(s) < pow256(s.len()),
    decreases s.len(),
{
    if s.len() > 0 {
        lemma_le_val_bound(s.drop_first());
    }
}

/// Reading back the little-endian bytes of a value below `256^n` yields the
/// value itself.
pub proof fn lemma_le_val_le_bytes(v: nat, n: nat)
    requires
        v < pow256(n),
    ensures
        le_val(le_bytes(v, n)) == v,
    decreases n,
{
    if n > 0 {
        lemma_le_bytes_len(v / 256, (n - 1) as nat);
        assert(le_bytes(v, n).drop_first() =~= le_bytes(v / 256, (n - 1) as nat));
        assert(v / 256 < pow256((n - 1) as nat)) by {
            assert(v < 256 * pow256((n - 1) as nat));
        };
        lemma_le_val_le_bytes(v / 256, (n - 1) as nat);
    }
}

pub proof fn lemma_pow256_mono(a: nat, b: nat)
    requires
        a <= b,
    ensures
        pow256(a) <= pow256(b),
    decreases b,
{
    if a < b {
        lemma_pow256_mono(a, (b - 1) as nat);
    }
}

/// Appends the `n` little-endian bytes of `v` to `out`.
fn push_le(out: &mut Vec<u8>, v: u128, n: usize)
    requires
        n <= 16,
    ensures
        final(out)@ == old(out)@ + le_bytes(v as nat, n as nat),
{
    let ghost whole: Seq<u8> = le_bytes(v as nat, n as nat);
    proof {
        lemma_le_bytes_len(v as nat, n as nat);
    }
    let mut x: u128 = v;
    let mut i: usize = 0;
    while i < n
        invariant
            i <= n,
            whole == le_bytes(v as nat, n as nat),
            whole.len() == n,
            out@ == old(out)@ + whole.take(i as int),
            le_bytes(x as nat, (n - i) as nat) == whole.skip(i as int),
        decreases n - i,
    {
        proof {
            lemma_le_bytes_len(x as nat / 256, (n - i - 1) as nat);
            assert(whole.skip(i as int)[0] == whole[i as int]);
        }
        out.push((x % 256) as u8);
        proof {
            assert(out@ =~= old(out)@ + whole.take(i + 1));
            assert(le_bytes(x as nat, (n - i) as nat).drop_first() =~= le_bytes(
                x as nat / 256,
                (n - i - 1) as nat,
            ));
            assert(whole.skip(i as int).drop_first() =~= whole.skip(i + 1));
        }
        x = x / 256;
        i = i + 1;
    }
    proof {
        assert(out@ =~= old(out)@ + whole);
    }
}

/// Reads the value of the `n` little-endian bytes at `offset`.
fn read_le(data: &[u8], offset: usize, n: usize) -> (r: u128)
    requires
        n <= 16,
        offset + n <= data@.len(),
    ensures
        r as nat == le_val(data@.subrange(offset as int, offset + n)),
        (r as nat) < pow256(n as nat),
{
    let ghost whole: Seq<u8> = data@.subrange(offset as int, offset + n);
    let data_len: usize = data.len();
    let mut v: u128 = 0;
    let mut i: usize = n;
    while i > 0
        invariant
            i <= n <= 16,
            offset + n <= data_len == data@.len(),
            whole == data@.subrange(offset as int, offset + n),
            v as nat == le_val(whole.skip(i as int)),
        decreases i,
    {
        i = i - 1;
        let b: u8 = data[offset + i];
        proof {
            assert(whole.skip(i as int)[0] == whole[i as int]);
            assert(whole[i as int] == data@[offset + i]);
            assert(whole.skip(i as int).drop_first() =~= whole.skip(i + 1));
            lemma_le_val_bound(whole.skip(i + 1));
            assert(whole.skip(i + 1).len() <= 15);
            lemma_pow256_mono(whole.skip(i + 1).len(), 15);
            assert(pow256(15) == 0x100_0000_0000_0000_0000_0000_0000_0000) by {
                reveal_with_fuel(pow256, 16);
            };
        }
        v = v * 256 + (b as u128);
    }
    proof {
        assert(whole.skip(0) =~= whole);
        lemma_le_val_bound(whole);
        lemma_le_bytes_len(0, n as nat);
        lemma_pow256_mono(whole.len(), 16);
        assert(pow256(16) == 0x1_0000_0000_0000_0000_0000_0000_0000_0000) by {
            reveal_with_fuel(pow256, 17);
        };
    }
    v
}

/// Variant tag carried ahead of a player state event.
pub const TAG_PLAYER_STATE: u32 = 0;

/// Variant tag carried ahead of an enemy state event.
pub const TAG_ENEMY_STATE: u32 = 1;

/// Variant tag carried ahead of a bullet state event.
pub const TAG_BULLET_STATE: u32 = 2;

/// The single byte a boolean is carried as.
pub open spec fn bool_byte(b: bool) -> Seq<u8> {
    if b {
        seq![1u8]
    } else {
        seq![0u8]
    }
}

/// The byte a boolean decodes from; any byte but 0 and 1 is malformed.
pub open spec fn spec_decode_bool(x: u8) -> Option<bool> {
    if x == 0 {
        Some(false)
    } else if x == 1 {
        Some(true)
    } else {
        None
    }
}

/// The serialized form of one event: a 4-byte variant tag, then the fields
/// in declaration order, little-endian.
pub open spec fn spec_encode_event(e: NetworkEvent) -> Seq<u8> {
    match e {
        NetworkEvent::PlayerState(p) => le_bytes(TAG_PLAYER_STATE as nat, 4) + le_bytes(
            p.id as nat,
            16,
        ) + le_bytes(p.position.x as nat, 4) + le_bytes(p.position.y as nat, 4) + le_bytes(
            p.position.z as nat,
            4,
        ) + le_bytes(p.rotation.x as nat, 4) + le_bytes(p.rotation.y as nat, 4) + le_bytes(
            p.rotation.z as nat,
            4,
        ) + le_bytes(p.rotation.w as nat, 4),
        NetworkEvent::EnemyState(en) => le_bytes(TAG_ENEMY_STATE as nat, 4) + le_bytes(
            en.id as nat,
            2,
        ) + le_bytes(en.position.x as nat, 4) + le_bytes(en.position.y as nat, 4) + bool_byte(
            en.visible,
        ),
        NetworkEvent::BulletState(b) => le_bytes(TAG_BULLET_STATE as nat, 4) + le_bytes(
            b.id as nat,
            4,
        ) + le_bytes(b.position.x as nat, 4) + le_bytes(b.position.y as nat, 4) + le_bytes(
            b.velocity.x as nat,
            4,
        ) + le_bytes(b.velocity.y as nat, 4) + bool_byte(b.visible),
    }
}

/// How many bytes one event occupies on the wire.
pub open spec fn event_size(e: NetworkEvent) -> nat {
    match e {
        NetworkEvent::PlayerState(_) => 48,
        NetworkEvent::EnemyState(_) => 15,
        NetworkEvent::BulletState(_) => 25,
    }
}

pub proof fn lemma_encode_event_len(e: NetworkEvent)
    ensures
        spec_encode_event(e).len() == event_size(e),
{
    match e {
        NetworkEvent::PlayerState(p) => {
            lemma_le_bytes_len(TAG_PLAYER_STATE as nat, 4);
            lemma_le_bytes_len(p.id as nat, 16);
            lemma_le_bytes_len(p.position.x as nat, 4);
            lemma_le_bytes_len(p.position.y as nat, 4);
            lemma_le_bytes_len(p.position.z as nat, 4);
            lemma_le_bytes_len(p.rotation.x as nat, 4);
            lemma_le_bytes_len(p.rotation.y as nat, 4);
            lemma_le_bytes_len(p.rotation.z as nat, 4);
            lemma_le_bytes_len(p.rotation.w as nat, 4);
        },
        NetworkEvent::EnemyState(en) => {
            lemma_le_bytes_len(TAG_ENEMY_STATE as nat, 4);
            lemma_le_bytes_len(en.id as nat, 2);
            lemma_le_bytes_len(en.position.x as nat, 4);
            lemma_le_bytes_len(en.position.y as nat, 4);
        },
        NetworkEvent::BulletState(b) => {
            lemma_le_bytes_len(TAG_BULLET_STATE as nat, 4);
            lemma_le_bytes_len(b.id as nat, 4);
            lemma_le_bytes_len(b.position.x as nat, 4);
            lemma_le_bytes_len(b.position.y as nat, 4);
            lemma_le_bytes_len(b.velocity.x as nat, 4);
            lemma_le_bytes_len(b.velocity.y as nat, 4);
        },
    }
}

/// The event at the head of `b`, if `b` starts with a well-formed event,
/// together with the bytes it occupies.
pub open spec fn spec_decode_event(b: Seq<u8>) -> Option<(NetworkEvent, nat)> {
    if b.len() < 4 {
        None
    } else {
        let tag = le_val(b.subrange(0, 4));
        if tag == TAG_PLAYER_STATE {
            if b.len() < 48 {
                None
            } else {
                Some(
                    (
                        NetworkEvent::PlayerState(
                            PlayerState {
                                id: le_val(b.subrange(4, 20)) as u128,
                                position: Vec3Bits {
                                    x: le_val(b.subrange(20, 24)) as u32,
                                    y: le_val(b.subrange(24, 28)) as u32,
                                    z: le_val(b.subrange(28, 32)) as u32,
                                },
                                rotation: QuatBits {
                                    x: le_val(b.subrange(32, 36)) as u32,
                                    y: le_val(b.subrange(36, 40)) as u32,
                                    z: le_val(b.subrange(40, 44)) as u32,
                                    w: le_val(b.subrange(44, 48)) as u32,
                                },
                            },
                        ),
                        48 as nat,
                    ),
                )
            }
        } else if tag == TAG_ENEMY_STATE {
            if b.len() < 15 {
                None
            } else {
                match spec_decode_bool(b[14]) {
                    None => None,
                    Some(vis) => Some(
                        (
                            NetworkEvent::EnemyState(
                                EnemyState {
                                    id: le_val(b.subrange(4, 6)) as u16,
                                    position: Vec2Bits {
                                        x: le_val(b.subrange(6, 10)) as u32,
                                        y: le_val(b.subrange(10, 14)) as u32,
                                    },
                                    visible: vis,
                                },
                            ),
                            15 as nat,
                        ),
                    ),
                }
            }
        } else if tag == TAG_BULLET_STATE {
            if b.len() < 25 {
                None
            } else {
                match spec_decode_bool(b[24]) {
                    None => None,
                    Some(vis) => Some(
                        (
                            NetworkEvent::BulletState(
                                BulletState {
                                    id: le_val(b.subrange(4, 8)) as u32,
                                    position: Vec2Bits {
                                        x: le_val(b.subrange(8, 12)) as u32,
                                        y: le_val(b.subrange(12, 16)) as u32,
                                    },
                                    velocity: Vec2Bits {
                                        x: le_val(b.subrange(16, 20)) as u32,
                                        y: le_val(b.subrange(20, 24)) as u32,
                                    },
                                    visible: vis,
                                },
                            ),
                            25 as nat,
                        ),
                    ),
                }
            }
        } else {
            None
        }
    }
}

/// Decoding recovers an encoded event exactly, whatever bytes follow it.
pub proof fn lemma_decode_encode_event(e: NetworkEvent, tail: Seq<u8>)
    ensures
        spec_decode_event(spec_encode_event(e) + tail) == Some((e, event_size(e))),
{
    lemma_encode_event_len(e);
    let b = spec_encode_event(e) + tail;
    assert(pow256(2) == 0x1_0000) by {
        reveal_with_fuel(pow256, 3);
    };
    assert(pow256(4) == 0x1_0000_0000) by {
        reveal_with_fuel(pow256, 5);
    };
    assert(pow256(16) == 0x1_0000_0000_0000_0000_0000_0000_0000_0000) by {
        reveal_with_fuel(pow256, 17);
    };
    match e {
        NetworkEvent::PlayerState(p) => {
            lemma_le_bytes_len(TAG_PLAYER_STATE as nat, 4);
            lemma_le_bytes_len(p.id as nat, 16);
            lemma_le_bytes_len(p.position.x as nat, 4);
            lemma_le_bytes_len(p.position.y as nat, 4);
            lemma_le_bytes_len(p.position.z as nat, 4);
            lemma_le_bytes_len(p.rotation.x as nat, 4);
            lemma_le_bytes_len(p.rotation.y as nat, 4);
            lemma_le_bytes_len(p.rotation.z as nat, 4);
            lemma_le_bytes_len(p.rotation.w as nat, 4);
            assert(b.subrange(0, 4) =~= le_bytes(TAG_PLAYER_STATE as nat, 4));
            lemma_le_val_le_bytes(TAG_PLAYER_STATE as nat, 4);
            assert(b.subrange(4, 20) =~= le_bytes(p.id as nat, 16));
            lemma_le_val_le_bytes(p.id as nat, 16);
            assert(b.subrange(20, 24) =~= le_bytes(p.position.x as nat, 4));
            lemma_le_val_le_bytes(p.position.x as nat, 4);
            assert(b.subrange(24, 28) =~= le_bytes(p.position.y as nat, 4));
            lemma_le_val_le_bytes(p.position.y as nat, 4);
            assert(b.subrange(28, 32) =~= le_bytes(p.position.z as nat, 4));
            lemma_le_val_le_bytes(p.position.z as nat, 4);
            assert(b.subrange(32, 36) =~= le_bytes(p.rotation.x as nat, 4));
            lemma_le_val_le_bytes(p.rotation.x as nat, 4);
            assert(b.subrange(36, 40) =~= le_bytes(p.rotation.y as nat, 4));
            lemma_le_val_le_bytes(p.rotation.y as nat, 4);
            assert(b.subrange(40, 44) =~= le_bytes(p.rotation.z as nat, 4));
            lemma_le_val_le_bytes(p.rotation.z as nat, 4);
            assert(b.subrange(44, 48) =~= le_bytes(p.rotation.w as nat, 4));
            lemma_le_val_le_bytes(p.rotation.w as nat, 4);
        },
        NetworkEvent::EnemyState(en) => {
            lemma_le_bytes_len(TAG_ENEMY_STATE as nat, 4);
            lemma_le_bytes_len(en.id as nat, 2);
            lemma_le_bytes_len(en.position.x as nat, 4);
            lemma_le_bytes_len(en.position.y as nat, 4);
            assert(b.subrange(0, 4) =~= le_bytes(TAG_ENEMY_STATE as nat, 4));
            lemma_le_val_le_bytes(TAG_ENEMY_STATE as nat, 4);
            assert(b.subrange(4, 6) =~= le_bytes(en.id as nat, 2));
            lemma_le_val_le_bytes(en.id as nat, 2);
            assert(b.subrange(6, 10) =~= le_bytes(en.position.x as nat, 4));
            lemma_le_val_le_bytes(en.position.x as nat, 4);
            assert(b.subrange(10, 14) =~= le_bytes(en.position.y as nat, 4));
            lemma_le_val_le_bytes(en.position.y as nat, 4);
            assert(b[14] == bool_byte(en.visible)[0]);
        },
        NetworkEvent::BulletState(bu) => {
            lemma_le_bytes_len(TAG_BULLET_STATE as nat, 4);
            lemma_le_bytes_len(bu.id as nat, 4);
            lemma_le_bytes_len(bu.position.x as nat, 4);
            lemma_le_bytes_len(bu.position.y as nat, 4);
            lemma_le_bytes_len(bu.velocity.x as nat, 4);
            lemma_le_bytes_len(bu.velocity.y as nat, 4);
            assert(b.subrange(0, 4) =~= le_bytes(TAG_BULLET_STATE as nat, 4));
            lemma_le_val_le_bytes(TAG_BULLET_STATE as nat, 4);
            assert(b.subrange(4, 8) =~= le_bytes(bu.id as nat, 4));
            lemma_le_val_le_bytes(bu.id as nat, 4);
            assert(b.subrange(8, 12) =~= le_bytes(bu.position.x as nat, 4));
            lemma_le_val_le_bytes(bu.position.x as nat, 4);
            assert(b.subrange(12, 16) =~= le_bytes(bu.position.y as nat, 4));
            lemma_le_val_le_bytes(bu.position.y as nat, 4);
            assert(b.subrange(16, 20) =~= le_bytes(bu.velocity.x as nat, 4));
            lemma_le_val_le_bytes(bu.velocity.x as nat, 4);
            assert(b.subrange(20, 24) =~= le_bytes(bu.velocity.y as nat, 4));
            lemma_le_val_le_bytes(bu.velocity.y as nat, 4);
            assert(b[24] == bool_byte(bu.visible)[0]);
        },
    }
}

/// The events of `s` serialized back to back.
pub open spec fn spec_encode_events(s: Seq<NetworkEvent>) -> Seq<u8>
    decreases s.len(),
{
    if s.len() == 0 {
        Seq::empty()
    } else {
        spec_encode_event(s[0]) + spec_encode_events(s.drop_first())
    }
}

pub proof fn lemma_encode_events_snoc(s: Seq<NetworkEvent>, e: NetworkEvent)
    ensures
        spec_encode_events(s.push(e)) == spec_encode_events(s) + spec_encode_event(e),
    decreases s.len(),
{
    if s.len() == 0 {
        reveal_with_fuel(spec_encode_events, 3);
        assert(s.push(e)[0] == e);
        assert(s.push(e).drop_first() =~= Seq::<NetworkEvent>::empty());
        assert(spec_encode_events(s.push(e)) =~= spec_encode_events(s) + spec_encode_event(e));
    } else {
        assert(s.push(e).drop_first() =~= s.drop_first().push(e));
        lemma_encode_events_snoc(s.drop_first(), e);
        assert(s.push(e)[0] == s[0]);
        assert(spec_encode_events(s.push(e)) == spec_encode_event(s[0]) + (spec_encode_events(
            s.drop_first(),
        ) + spec_encode_event(e)));
        assert(spec_encode_events(s.push(e)) =~= spec_encode_events(s) + spec_encode_event(e));
    }
}

/// `n` events decoded from the front of `b`; the whole of `b` must be
/// consumed, trailing bytes are malformed.
pub open spec fn spec_decode_events(b: Seq<u8>, n: nat) -> Option<Seq<NetworkEvent>>
    decreases n,
{
    if n == 0 {
        if b.len() == 0 {
            Some(Seq::empty())
        } else {
            None
        }
    } else {
        match spec_decode_event(b) {
            None => None,
            Some((e, c)) => match spec_decode_events(b.skip(c as int), (n - 1) as nat) {
                None => None,
                Some(rest) => Some(seq![e] + rest),
            },
        }
    }
}

/// The serialized payload of a packet: an 8-byte little-endian event count,
/// then the events.
pub open spec fn spec_encode_packet(s: Seq<NetworkEvent>) -> Seq<u8> {
    le_bytes(s.len(), 8) + spec_encode_events(s)
}

/// The event batch a payload holds, if well formed.
pub open spec fn spec_decode_packet(b: Seq<u8>) -> Option<Seq<NetworkEvent>> {
    if b.len() < 8 {
        None
    } else {
        spec_decode_events(b.skip(8), le_val(b.subrange(0, 8)))
    }
}

pub proof fn lemma_decode_encode_events(s: Seq<NetworkEvent>)
    ensures
        spec_decode_events(spec_encode_events(s), s.len()) == Some(s),
    decreases s.len(),
{
    if s.len() == 0 {
        assert(spec_decode_events(spec_encode_events(s), 0) == Some(Seq::<NetworkEvent>::empty()));
        assert(Seq::<NetworkEvent>::empty() =~= s);
    } else {
        let b = spec_encode_events(s);
        lemma_decode_encode_event(s[0], spec_encode_events(s.drop_first()));
        lemma_encode_event_len(s[0]);
        assert(b.skip(event_size(s[0]) as int) =~= spec_encode_events(s.drop_first()));
        lemma_decode_encode_events(s.drop_first());
        assert(seq![s[0]] + s.drop_first() =~= s);
    }
}

/// Decoding recovers a serialized payload exactly: the codec's round trip.
pub proof fn lemma_packet_round_trip(s: Seq<NetworkEvent>)
    requires
        s.len() < pow256(8),
    ensures
        spec_decode_packet(spec_encode_packet(s)) == Some(s),
{
    let b = spec_encode_packet(s);
    lemma_le_bytes_len(s.len(), 8);
    assert(b.subrange(0, 8) =~= le_bytes(s.len(), 8));
    lemma_le_val_le_bytes(s.len(), 8);
    assert(b.skip(8) =~= spec_encode_events(s));
    lemma_decode_encode_events(s);
}

/// Appends the serialized form of one event to `out`.
fn encode_event(out: &mut Vec<u8>, e: &NetworkEvent)
    ensures
        final(out)@ == old(out)@ + spec_encode_event(*e),
{
    match e {
        NetworkEvent::PlayerState(p) => {
            push_le(out, TAG_PLAYER_STATE as u128, 4);
            push_le(out, p.id, 16);
            push_le(out, p.position.x as u128, 4);
            push_le(out, p.position.y as u128, 4);
            push_le(out, p.position.z as u128, 4);
            push_le(out, p.rotation.x as u128, 4);
            push_le(out, p.rotation.y as u128, 4);
            push_le(out, p.rotation.z as u128, 4);
            push_le(out, p.rotation.w as u128, 4);
            proof {
                assert(out@ =~= old(out)@ + spec_encode_event(*e));
            }
        },
        NetworkEvent::EnemyState(en) => {
            push_le(out, TAG_ENEMY_STATE as u128, 4);
            push_le(out, en.id as u128, 2);
            push_le(out, en.position.x as u128, 4);
            push_le(out, en.position.y as u128, 4);
            out.push(if en.visible {
                1
            } else {
                0
            });
            proof {
                assert(out@ =~= old(out)@ + spec_encode_event(*e));
            }
        },
        NetworkEvent::BulletState(b) => {
            push_le(out, TAG_BULLET_STATE as u128, 4);
            push_le(out, b.id as u128, 4);
            push_le(out, b.position.x as u128, 4);
            push_le(out, b.position.y as u128, 4);
            push_le(out, b.velocity.x as u128, 4);
            push_le(out, b.velocity.y as u128, 4);
            out.push(if b.visible {
                1
            } else {
                0
            });
            proof {
                assert(out@ =~= old(out)@ + spec_encode_event(*e));
            }
        },
    }
}

/// Serializes a packet to its uncompressed payload bytes.
pub fn serialize_packet(p: &NetPacket) -> (r: Vec<u8>)
    ensures
        r@ == spec_encode_packet(p@),
{
    let mut out: Vec<u8> = Vec::new();
    push_le(&mut out, p.0.len() as u128, 8);
    proof {
        assert(out@ =~= le_bytes(p@.len(), 8));
    }
    let n: usize = p.0.len();
    let mut i: usize = 0;
    while i < n
        invariant
            i <= n == p@.len(),
            out@ == le_bytes(p@.len(), 8) + spec_encode_events(p@.take(i as int)),
        decreases n - i,
    {
        let e: NetworkEvent = p.0[i];
        encode_event(&mut out, &e);
        proof {
            lemma_encode_events_snoc(p@.take(i as int), p@[i as int]);
            assert(p@.take(i + 1) =~= p@.take(i as int).push(p@[i as int]));
            assert(out@ =~= le_bytes(p@.len(), 8) + spec_encode_events(p@.take(i + 1)));
        }
        i = i + 1;
    }
    proof {
        assert(p@.take(n as int) =~= p@);
    }
    out
}

/// Decodes the event at `offset`, returning it and the offset just past it.
fn decode_event(data: &[u8], offset: usize) -> (r: Option<(NetworkEvent, usize)>)
    requires
        offset <= data@.len(),
    ensures
        match r {
            None => spec_decode_event(data@.skip(offset as int)) is None,
            Some(pair) => offset < pair.1 <= data@.len() && spec_decode_event(
                data@.skip(offset as int),
            ) == Some((pair.0, (pair.1 - offset) as nat)),
        },
{
    let ghost rest: Seq<u8> = data@.skip(offset as int);
    let len: usize = data.len();
    if len - offset < 4 {
        return None;
    }
    proof {
        assert(rest.subrange(0, 4) =~= data@.subrange(offset as int, offset + 4));
    }
    let tag: u128 = read_le(data, offset, 4);
    if tag == TAG_PLAYER_STATE as u128 {
        if len - offset < 48 {
            return None;
        }
        proof {
            assert(rest.subrange(4, 20) =~= data@.subrange(offset + 4, offset + 20));
            assert(rest.subrange(20, 24) =~= data@.subrange(offset + 20, offset + 24));
            assert(rest.subrange(24, 28) =~= data@.subrange(offset + 24, offset + 28));
            assert(rest.subrange(28, 32) =~= data@.subrange(offset + 28, offset + 32));
            assert(rest.subrange(32, 36) =~= data@.subrange(offset + 32, offset + 36));
            assert(rest.subrange(36, 40) =~= data@.subrange(offset + 36, offset + 40));
            assert(rest.subrange(40, 44) =~= data@.subrange(offset + 40, offset + 44));
            assert(rest.subrange(44, 48) =~= data@.subrange(offset + 44, offset + 48));
            assert(pow256(4) == 0x1_0000_0000) by {
                reveal_with_fuel(pow256, 5);
            };
        }
        let id: u128 = read_le(data, offset + 4, 16);
        let px: u32 = read_le(data, offset + 20, 4) as u32;
        let py: u32 = read_le(data, offset + 24, 4) as u32;
        let pz: u32 = read_le(data, offset + 28, 4) as u32;
        let rx: u32 = read_le(data, offset + 32, 4) as u32;
        let ry: u32 = read_le(data, offset + 36, 4) as u32;
        let rz: u32 = read_le(data, offset + 40, 4) as u32;
        let rw: u32 = read_le(data, offset + 44, 4) as u32;
        let ev = NetworkEvent::PlayerState(
            PlayerState {
                id,
                position: Vec3Bits { x: px, y: py, z: pz },
                rotation: QuatBits { x: rx, y: ry, z: rz, w: rw },
            },
        );
        Some((ev, offset + 48))
    } else if tag == TAG_ENEMY_STATE as u128 {
        if len - offset < 15 {
            return None;
        }
        proof {
            assert(rest.subrange(4, 6) =~= data@.subrange(offset + 4, offset + 6));
            assert(rest.subrange(6, 10) =~= data@.subrange(offset + 6, offset + 10));
            assert(rest.subrange(10, 14) =~= data@.subrange(offset + 10, offset + 14));
            assert(rest[14] == data@[offset + 14]);
            assert(pow256(2) == 0x1_0000) by {
                reveal_with_fuel(pow256, 3);
            };
            assert(pow256(4) == 0x1_0000_0000) by {
                reveal_with_fuel(pow256, 5);
            };
        }
        let id: u16 = read_le(data, offset + 4, 2) as u16;
        let px: u32 = read_le(data, offset + 6, 4) as u32;
        let py: u32 = read_le(data, offset + 10, 4) as u32;
        let vis_byte: u8 = data[offset + 14];
        if vis_byte > 1 {
            return None;
        }
        let ev = NetworkEvent::EnemyState(
            EnemyState { id, position: Vec2Bits { x: px, y: py }, visible: vis_byte == 1 },
        );
        Some((ev, offset + 15))
    } else if tag == TAG_BULLET_STATE as u128 {
        if len - offset < 25 {
            return None;
        }
        proof {
            assert(rest.subrange(4, 8) =~= data@.subrange(offset + 4, offset + 8));
            assert(rest.subrange(8, 12) =~= data@.subrange(offset + 8, offset + 12));
            assert(rest.subrange(12, 16) =~= data@.subrange(offset + 12, offset + 16));
            assert(rest.subrange(16, 20) =~= data@.subrange(offset + 16, offset + 20));
            assert(rest.subrange(20, 24) =~= data@.subrange(offset + 20, offset + 24));
            assert(rest[24] == data@[offset + 24]);
            assert(pow256(4) == 0x1_0000_0000) by {
                reveal_with_fuel(pow256, 5);
            };
        }
        let id: u32 = read_le(data, offset + 4, 4) as u32;
        let px: u32 = read_le(data, offset + 8, 4) as u32;
        let py: u32 = read_le(data, offset + 12, 4) as u32;
        let vx: u32 = read_le(data, offset + 16, 4) as u32;
        let vy: u32 = read_le(data, offset + 20, 4) as u32;
        let vis_byte: u8 = data[offset + 24];
        if vis_byte > 1 {
            return None;
        }
        let ev = NetworkEvent::BulletState(
            BulletState {
                id,
                position: Vec2Bits { x: px, y: py },
                velocity: Vec2Bits { x: vx, y: vy },
                visible: vis_byte == 1,
            },
        );
        Some((ev, offset + 25))
    } else {
        None
    }
}

/// The batch a decoded packet holds, for relating an `Option<NetPacket>` to
/// the specification-level parse.
pub open spec fn opt_packet_view(r: Option<NetPacket>) -> Option<Seq<NetworkEvent>> {
    match r {
        Some(p) => Some(p@),
        None => None,
    }
}

/// Parses an uncompressed payload back into a packet; `None` on malformed
/// or truncated bytes.
pub fn deserialize_packet(data: &[u8]) -> (r: Option<NetPacket>)
    ensures
        opt_packet_view(r) == spec_decode_packet(data@),
{
    let len: usize = data.len();
    if len < 8 {
        return None;
    }
    let count128: u128 = read_le(data, 0, 8);
    proof {
        assert(pow256(8) == 0x1_0000_0000_0000_0000) by {
            reveal_with_fuel(pow256, 9);
        };
        lemma_pow256_mono(8, 16);
    }
    let count: u64 = count128 as u64;
    let ghost total: nat = count as nat;
    let mut events: Vec<NetworkEvent> = Vec::new();
    let mut offset: usize = 8;
    let mut done: u64 = 0;
    while done < count
        invariant
            8 <= offset <= data@.len(),
            done <= count,
            count as nat == le_val(data@.subrange(0, 8)),
            data@.len() >= 8,
            events@.len() == done,
            spec_decode_events(data@.skip(8), count as nat) == match spec_decode_events(
                data@.skip(offset as int),
                (count - done) as nat,
            ) {
                Some(s) => Some(events@ + s),
                None => None::<Seq<NetworkEvent>>,
            },
        decreases count - done,
    {
        match decode_event(data, offset) {
            None => {
                return None;
            },
            Some(pair) => {
                let (e, newoff) = pair;
                proof {
                    assert(data@.skip(offset as int).skip((newoff - offset) as int) =~= data@.skip(
                        newoff as int,
                    ));
                    assert(forall|s: Seq<NetworkEvent>|
                        (events@ + seq![e]) + s =~= events@ + (seq![e] + s));
                }
                events.push(e);
                offset = newoff;
                done = done + 1;
            },
        }
    }
    if offset != len {
        proof {
            assert(data@.skip(offset as int).len() > 0);
        }
        return None;
    }
    proof {
        assert(data@.skip(offset as int).len() == 0);
        assert(data@.skip(offset as int) =~= Seq::<u8>::empty());
        assert(events@ + Seq::<NetworkEvent>::empty() =~= events@);
    }
    Some(NetPacket(events))
}

/// What flate2's zlib compression at its default level returns for the
/// given bytes. Compression is a function of the input alone, so its result
/// can be named without being spelled out.
pub uninterp spec fn deflate_of(data: Seq<u8>) -> Seq<u8>;

/// Relies on flate2::write::ZlibEncoder at the default compression level:
/// the compressed stream is a function of the input bytes alone, and
/// writing into an in-memory Vec cannot fail.
#[verifier::external_body]
fn zlib_compress(data: &[u8]) -> (r: Vec<u8>)
    ensures
        r@ == deflate_of(data@),
{
    let mut encoder = flate2::write::ZlibEncoder::new(Vec::new(), flate2::Compression::default());
    std::io::Write::write_all(&mut encoder, data).unwrap();
    encoder.finish().unwrap()
}

/// Relies on flate2::read::ZlibDecoder: inflating a stream that the zlib
/// encoder produced yields exactly the bytes that were compressed; on other
/// input nothing is promised (an error becomes `None`).
#[verifier::external_body]
fn zlib_decompress(data: &[u8]) -> (r: Option<Vec<u8>>)
    ensures
        r is None ==> forall|d: Seq<u8>| data@ != #[trigger] deflate_of(d),
        r matches Some(v) ==> forall|d: Seq<u8>| data@ == #[trigger] deflate_of(d) ==> v@ == d,
{
    let mut decoder = flate2::read::ZlibDecoder::new(data);
    let mut out: Vec<u8> = Vec::new();
    match std::io::Read::read_to_end(&mut decoder, &mut out) {
        Ok(_) => Some(out),
        Err(_) => None,
    }
}

/// A packet's full wire form: the payload raw with flag byte 0 when it is
/// short enough, compressed with flag byte 1 otherwise.
pub open spec fn spec_wire_encode(s: Seq<NetworkEvent>) -> Seq<u8> {
    let payload = spec_encode_packet(s);
    if payload.len() <= MAX_UNCOMPRESSED_SIZE {
        payload + seq![0u8]
    } else {
        deflate_of(payload) + seq![1u8]
    }
}

/// Serializes a packet into one wire unit, compressing the payload when it
/// exceeds the threshold and appending the compression flag byte.
pub fn net_packet_to_bytes(data: &NetPacket) -> (r: Vec<u8>)
    ensures
        r@ == spec_wire_encode(data@),
        r@.len() > 0,
        spec_encode_packet(data@).len() <= MAX_UNCOMPRESSED_SIZE ==> r@.last() == 0
            && r@.drop_last() == spec_encode_packet(data@),
        spec_encode_packet(data@).len() > MAX_UNCOMPRESSED_SIZE ==> r@.last() == 1
            && r@.drop_last() == deflate_of(spec_encode_packet(data@)),
{
    let mut out = serialize_packet(data);
    if out.len() > MAX_UNCOMPRESSED_SIZE {
        let mut comp = zlib_compress(out.as_slice());
        comp.push(1);
        proof {
            assert(comp@ =~= deflate_of(spec_encode_packet(data@)) + seq![1u8]);
            assert(comp@.drop_last() =~= deflate_of(spec_encode_packet(data@)));
        }
        comp
    } else {
        out.push(0);
        proof {
            assert(out@ =~= spec_encode_packet(data@) + seq![0u8]);
            assert(out@.drop_last() =~= spec_encode_packet(data@));
        }
        out
    }
}

/// Parses one wire unit back into a packet: reads the trailing flag byte,
/// decompresses if it says so, then parses the payload. Malformed input of
/// any shape yields `None`; an encoded packet always comes back exactly.
pub fn bytes_to_net_packet(data: &[u8]) -> (r: Option<NetPacket>)
    ensures
        data@.len() == 0 ==> r is None,
        data@.len() > 0 && data@.last() != 1 ==> opt_packet_view(r) == spec_decode_packet(
            data@.drop_last(),
        ),
        data@.len() > 0 && data@.last() == 1 ==> forall|d: Seq<u8>|
            data@.drop_last() == #[trigger] deflate_of(d) ==> opt_packet_view(r)
                == spec_decode_packet(d),
        forall|s: Seq<NetworkEvent>|
            data@ == #[trigger] spec_wire_encode(s) && s.len() < 0x1_0000_0000_0000_0000
                ==> opt_packet_view(r) == Some(s),
{
    let len: usize = data.len();
    if len == 0 {
        return None;
    }
    let flag: u8 = data[len - 1];
    proof {
        assert(data@.last() == flag);
    }
    let body: &[u8] = vstd::slice::slice_subrange(data, 0, len - 1);
    proof {
        assert(body@ =~= data@.drop_last());
    }
    if flag == 1 {
        match zlib_decompress(body) {
            None => {
                proof {
                    assert forall|s: Seq<NetworkEvent>|
                        data@ == #[trigger] spec_wire_encode(s) && s.len()
                            < 0x1_0000_0000_0000_0000 implies opt_packet_view(None::<NetPacket>)
                        == Some(s) by {
                        let payload = spec_encode_packet(s);
                        if payload.len() <= MAX_UNCOMPRESSED_SIZE {
                            assert(data@.last() == (payload + seq![0u8]).last());
                        } else {
                            assert(data@.drop_last() =~= deflate_of(payload));
                        }
                    }
                }
                None
            },
            Some(raw) => {
                let r = deserialize_packet(raw.as_slice());
                proof {
                    assert forall|d: Seq<u8>|
                        data@.drop_last() == #[trigger] deflate_of(d) implies opt_packet_view(r)
                        == spec_decode_packet(d) by {
                        assert(raw@ == d);
                    }
                    assert forall|s: Seq<NetworkEvent>|
                        data@ == #[trigger] spec_wire_encode(s) && s.len()
                            < 0x1_0000_0000_0000_0000 implies opt_packet_view(r) == Some(s) by {
                        let payload = spec_encode_packet(s);
                        if payload.len() <= MAX_UNCOMPRESSED_SIZE {
                            assert(data@.last() == (payload + seq![0u8]).last());
                        } else {
                            assert(data@.drop_last() =~= deflate_of(payload));
                            assert(raw@ == payload);
                            assert(pow256(8) == 0x1_0000_0000_0000_0000) by {
                                reveal_with_fuel(pow256, 9);
                            };
                            lemma_packet_round_trip(s);
                        }
                    }
                }
                r
            },
        }
    } else {
        let r = deserialize_packet(body);
        proof {
            assert forall|s: Seq<NetworkEvent>|
                data@ == #[trigger] spec_wire_encode(s) && s.len() < 0x1_0000_0000_0000_0000
                implies opt_packet_view(r) == Some(s) by {
                let payload = spec_encode_packet(s);
                if payload.len() <= MAX_UNCOMPRESSED_SIZE {
                    assert(data@.drop_last() =~= payload);
                    assert(pow256(8) == 0x1_0000_0000_0000_0000) by {
                        reveal_with_fuel(pow256, 9);
                    };
                    lemma_packet_round_trip(s);
                } else {
                    assert(data@.last() == (deflate_of(payload) + seq![1u8]).last());
                }
            }
        }
        r
    }
}

} // verus!
