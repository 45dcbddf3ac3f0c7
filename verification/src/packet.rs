//! Typed event payloads exchanged between peers.
//!
//! Every event is an idempotent full-state replacement for one remote-owned
//! entity: it carries everything needed to overwrite that entity's transform,
//! visibility and kinematics, so dropped or reordered packets are harmless
//! and the newest arrival for a given id wins.
//!
//! Transform components are carried as the IEEE-754 bit patterns of the
//! engine's 32-bit float components; this core never does arithmetic on
//! them, it only moves and stores them.

use vstd::prelude::*;

verus! {

/// Bit patterns of a 2-component float vector (a position or a velocity in
/// the arena plane).
#[derive(Clone, Copy, Debug, PartialEq, Eq, Structural)]
pub struct Vec2Bits {
    pub x: u32,
    pub y: u32,
}

/// Bit patterns of a 3-component float vector (a translation in space).
#[derive(Clone, Copy, Debug, PartialEq, Eq, Structural)]
pub struct Vec3Bits {
    pub x: u32,
    pub y: u32,
    pub z: u32,
}

/// Bit patterns of a quaternion (an orientation).
#[derive(Clone, Copy, Debug, PartialEq, Eq, Structural)]
pub struct QuatBits {
    pub x: u32,
    pub y: u32,
    pub z: u32,
    pub w: u32,
}

impl Vec2Bits {
    pub fn zero() -> (r: Vec2Bits)
        ensures
            r == (Vec2Bits { x: 0u32, y: 0u32 }),
    {
        Vec2Bits { x: 0, y: 0 }
    }
}

impl Vec3Bits {
    pub fn zero() -> (r: Vec3Bits)
        ensures
            r == (Vec3Bits { x: 0u32, y: 0u32, z: 0u32 }),
    {
        Vec3Bits { x: 0, y: 0, z: 0 }
    }
}

impl QuatBits {
    /// The identity orientation, all components zero but `w`, which is the
    /// bit pattern of 1.0.
    pub fn identity() -> (r: QuatBits)
        ensures
            r == (QuatBits { x: 0u32, y: 0u32, z: 0u32, w: 0x3f80_0000u32 }),
    {
        QuatBits { x: 0, y: 0, z: 0, w: 0x3f80_0000 }
    }
}

/// Notification that a new peer connected. Not part of the wire packet:
/// the transport reports it and the session manager forwards it.
#[derive(Clone, Copy, Debug, PartialEq, Eq, Structural)]
pub struct Connected {
    pub peer_id: u128,
}

/// Notification that a peer disconnected. Not part of the wire packet.
#[derive(Clone, Copy, Debug, PartialEq, Eq, Structural)]
pub struct Disconnected {
    pub peer_id: u128,
}

/// Full-state replacement for the ship of the player owned by peer `id`.
#[derive(Clone, Copy, Debug, PartialEq, Eq, Structural)]
pub struct PlayerState {
    pub id: u128,
    pub position: Vec3Bits,
    pub rotation: QuatBits,
}

/// Full-state replacement for the pool enemy with the given id.
#[derive(Clone, Copy, Debug, PartialEq, Eq, Structural)]
pub struct EnemyState {
    pub id: u16,
    pub position: Vec2Bits,
    pub visible: bool,
}

/// Full-state replacement for the pool bullet with the given id.
#[derive(Clone, Copy, Debug, PartialEq, Eq, Structural)]
pub struct BulletState {
    pub id: u32,
    pub position: Vec2Bits,
    pub velocity: Vec2Bits,
    pub visible: bool,
}

/// One state-change event, the unit the event bus dispatches by kind.
#[derive(Clone, Copy, Debug, PartialEq, Eq, Structural)]
pub enum NetworkEvent {
    PlayerState(PlayerState),
    EnemyState(EnemyState),
    BulletState(BulletState),
}

/// The ordered batch of events produced within one synchronization tick and
/// serialized as a single wire unit.
#[derive(Clone, Debug)]
pub struct NetPacket(pub Vec<NetworkEvent>);

impl View for NetPacket {
    type V = Seq<NetworkEvent>;

    open spec fn view(&self) -> Seq<NetworkEvent> {
        self.0@
    }
}

} // verus!
