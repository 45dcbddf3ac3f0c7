use netsync::codec::{bytes_to_net_packet, net_packet_to_bytes, serialize_packet,
    MAX_UNCOMPRESSED_SIZE};
use netsync::packet::{BulletState, EnemyState, NetPacket, NetworkEvent, PlayerState, QuatBits,
    Vec2Bits, Vec3Bits};

fn sample_player(id: u128) -> NetworkEvent {
    NetworkEvent::PlayerState(PlayerState {
        id,
        position: Vec3Bits {
            x: 1.5f32.to_bits(),
            y: 0.0f32.to_bits(),
            z: (-3.25f32).to_bits(),
        },
        rotation: QuatBits {
            x: 0.0f32.to_bits(),
            y: 0.7071f32.to_bits(),
            z: 0.0f32.to_bits(),
            w: 0.7071f32.to_bits(),
        },
    })
}

fn sample_enemy(id: u16, visible: bool) -> NetworkEvent {
    NetworkEvent::EnemyState(EnemyState {
        id,
        position: Vec2Bits {
            x: 4.0f32.to_bits(),
            y: (-8.5f32).to_bits(),
        },
        visible,
    })
}

fn sample_bullet(id: u32) -> NetworkEvent {
    NetworkEvent::BulletState(BulletState {
        id,
        position: Vec2Bits {
            x: 0.25f32.to_bits(),
            y: 0.5f32.to_bits(),
        },
        velocity: Vec2Bits {
            x: 30.0f32.to_bits(),
            y: (-30.0f32).to_bits(),
        },
        visible: true,
    })
}

#[test]
fn test_to_net_packet() {
    // let data = to_net_packet(&"hello");
    // let data = from_net_packet::<String>(&data);
    // assert_eq!(data.unwrap(), "hello");
}

#[test]
fn test_round_trip_small_packet() {
    let packet = NetPacket(vec![sample_player(7), sample_enemy(3, true), sample_bullet(11)]);
    let bytes = net_packet_to_bytes(&packet);
    assert_eq!(*bytes.last().unwrap(), 0, "small payload must stay raw");
    let decoded = bytes_to_net_packet(&bytes).expect("encoded packet must decode");
    assert_eq!(decoded.0, packet.0);
}

#[test]
fn test_round_trip_empty_packet() {
    let packet = NetPacket(vec![]);
    let bytes = net_packet_to_bytes(&packet);
    assert_eq!(bytes.len(), 9, "8-byte count plus flag byte");
    assert_eq!(*bytes.last().unwrap(), 0);
    let decoded = bytes_to_net_packet(&bytes).expect("empty packet must decode");
    assert!(decoded.0.is_empty());
}

#[test]
fn test_round_trip_compressed_packet() {
    let events: Vec<NetworkEvent> = (0..40).map(|i| sample_player(i as u128)).collect();
    let packet = NetPacket(events);
    assert!(serialize_packet(&packet).len() > MAX_UNCOMPRESSED_SIZE);
    let bytes = net_packet_to_bytes(&packet);
    assert_eq!(*bytes.last().unwrap(), 1, "large payload must be compressed");
    let decoded = bytes_to_net_packet(&bytes).expect("compressed packet must decode");
    assert_eq!(decoded.0, packet.0);
}

#[test]
fn test_compression_threshold_boundary() {
    // 16 enemy events serialize to 8 + 16 * 15 = 248 bytes: at most the
    // threshold, so the payload stays raw. One more event crosses it.
    let at_threshold = NetPacket((0..16).map(|i| sample_enemy(i as u16, true)).collect());
    let payload = serialize_packet(&at_threshold);
    assert_eq!(payload.len(), 248);
    let bytes = net_packet_to_bytes(&at_threshold);
    assert_eq!(*bytes.last().unwrap(), 0);
    assert_eq!(&bytes[..bytes.len() - 1], payload.as_slice());
    let decoded = bytes_to_net_packet(&bytes).expect("raw packet must decode");
    assert_eq!(decoded.0, at_threshold.0);

    let over_threshold = NetPacket((0..17).map(|i| sample_enemy(i as u16, false)).collect());
    assert_eq!(serialize_packet(&over_threshold).len(), 263);
    let bytes = net_packet_to_bytes(&over_threshold);
    assert_eq!(*bytes.last().unwrap(), 1);
    assert!(bytes.len() < 263 + 1, "compression must shrink this payload");
    let decoded = bytes_to_net_packet(&bytes).expect("compressed packet must decode");
    assert_eq!(decoded.0, over_threshold.0);
}

#[test]
fn test_decode_empty_input_is_none() {
    assert!(bytes_to_net_packet(&[]).is_none());
}

#[test]
fn test_decode_garbage_is_none() {
    assert!(bytes_to_net_packet(&[5, 6, 7]).is_none());
    assert!(bytes_to_net_packet(&[0]).is_none());
    assert!(bytes_to_net_packet(&[255; 40]).is_none());
}

#[test]
fn test_decode_truncated_is_none() {
    let packet = NetPacket(vec![sample_player(1), sample_bullet(2)]);
    let bytes = net_packet_to_bytes(&packet);
    // Dropping bytes from the middle leaves the trailing flag intact but
    // truncates the payload.
    let mut truncated: Vec<u8> = bytes[..bytes.len() - 10].to_vec();
    truncated.push(0);
    assert!(bytes_to_net_packet(&truncated).is_none());
}

#[test]
fn test_decode_bad_flag_is_none() {
    // A compressed stream with its flag byte overwritten is parsed as a raw
    // payload and rejected.
    let events: Vec<NetworkEvent> = (0..40).map(|_| sample_bullet(9)).collect();
    let mut bytes = net_packet_to_bytes(&NetPacket(events));
    assert_eq!(*bytes.last().unwrap(), 1);
    let n = bytes.len();
    bytes[n - 1] = 0;
    assert!(bytes_to_net_packet(&bytes).is_none());
}

#[test]
fn test_decode_bad_bool_byte_is_none() {
    let packet = NetPacket(vec![sample_enemy(3, true)]);
    let mut bytes = net_packet_to_bytes(&packet);
    assert_eq!(*bytes.last().unwrap(), 0);
    // The visibility byte of the single enemy event sits at offset
    // 8 (count) + 4 (tag) + 2 (id) + 8 (position) = 22.
    bytes[22] = 7;
    assert!(bytes_to_net_packet(&bytes).is_none());
}

#[test]
fn test_decode_trailing_bytes_is_none() {
    let packet = NetPacket(vec![sample_enemy(1, false)]);
    let bytes = net_packet_to_bytes(&packet);
    assert_eq!(*bytes.last().unwrap(), 0);
    let mut padded: Vec<u8> = bytes[..bytes.len() - 1].to_vec();
    padded.push(42);
    padded.push(0);
    assert!(bytes_to_net_packet(&padded).is_none());
}

#[test]
fn test_wire_layout_exact() {
    // One enemy event, written out byte for byte: little-endian count,
    // 4-byte variant tag, 2-byte id, two 4-byte position components, one
    // visibility byte, and the raw flag.
    let ev = NetworkEvent::EnemyState(EnemyState {
        id: 0x0102,
        position: Vec2Bits { x: 0x0a0b0c0d, y: 0x01020304 },
        visible: true,
    });
    let bytes = net_packet_to_bytes(&NetPacket(vec![ev]));
    let expected: Vec<u8> = vec![
        1, 0, 0, 0, 0, 0, 0, 0, // one event
        1, 0, 0, 0, // enemy tag
        0x02, 0x01, // id
        0x0d, 0x0c, 0x0b, 0x0a, // position x bits
        0x04, 0x03, 0x02, 0x01, // position y bits
        1, // visible
        0, // raw flag
    ];
    assert_eq!(bytes, expected);
}
