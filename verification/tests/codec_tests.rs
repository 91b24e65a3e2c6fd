use integer_encoding::VarInt;
use server_index::net::{HostAddr, NetAddress};
use server_index::player_entry::Player;
use server_index::server_entry::Server;
use server_index::DecodeError;

fn addr4(o0: u8, o1: u8, o2: u8, o3: u8, port: u16) -> NetAddress {
    NetAddress { host: HostAddr::V4 { o0, o1, o2, o3 }, port }
}

fn id_bytes(id: u128) -> [u8; 16] {
    id.to_be_bytes()
}

#[test]
fn server_pointer_form_is_length_prefixed_text() {
    let s = Server { addr: addr4(1, 2, 3, 4, 25565), players: Vec::new() };
    let mut expect = vec![13u8];
    expect.extend_from_slice(b"1.2.3.4:25565");
    assert_eq!(s.serialize_pointer(), expect);
}

#[test]
fn server_full_form_counts_player_pointers() {
    let players = vec![
        Player { name: b"Alice".to_vec(), uuid: 1, servers: Vec::new() },
        Player { name: b"Bob".to_vec(), uuid: 2, servers: Vec::new() },
    ];
    let s = Server { addr: addr4(1, 2, 3, 4, 25565), players };
    let mut expect = vec![13u8];
    expect.extend_from_slice(b"1.2.3.4:25565");
    expect.push(2);
    expect.push(5);
    expect.extend_from_slice(b"Alice");
    expect.extend_from_slice(&id_bytes(1));
    expect.push(3);
    expect.extend_from_slice(b"Bob");
    expect.extend_from_slice(&id_bytes(2));
    assert_eq!(s.serialize(), expect);
}

#[test]
fn player_pointer_form_is_name_then_id() {
    let p = Player { name: b"Alice".to_vec(), uuid: 0xF9168C5E, servers: Vec::new() };
    let mut expect = vec![5u8];
    expect.extend_from_slice(b"Alice");
    expect.extend_from_slice(&id_bytes(0xF9168C5E));
    assert_eq!(p.serialize_pointer(), expect);
}

#[test]
fn player_full_form_is_id_then_server_pointers() {
    let p = Player {
        name: b"Alice".to_vec(),
        uuid: 7,
        servers: vec![addr4(1, 2, 3, 4, 25565), addr4(9, 9, 9, 9, 80)],
    };
    let mut expect = Vec::new();
    expect.extend_from_slice(&id_bytes(7));
    expect.push(2);
    expect.push(13);
    expect.extend_from_slice(b"1.2.3.4:25565");
    expect.push(10);
    expect.extend_from_slice(b"9.9.9.9:80");
    assert_eq!(p.serialize(), expect);
}

#[test]
fn long_names_get_multi_byte_length_prefixes() {
    // the length prefix really is a varint, not the raw length
    let name = vec![b'x'; 300];
    let p = Player { name: name.clone(), uuid: 0, servers: Vec::new() };
    let bytes = p.serialize_pointer();
    assert_eq!(&bytes[0..2], &[0xAC, 0x02]);
    assert_eq!(&bytes[0..2], 300u64.encode_var_vec().as_slice());
    assert_eq!(&bytes[2..302], name.as_slice());
}

#[test]
fn server_pointer_round_trip() {
    let s = Server { addr: addr4(10, 0, 0, 1, 8080), players: Vec::new() };
    let decoded = Server::deserialize_pointer(&s.serialize_pointer()).unwrap();
    assert_eq!(decoded.addr, s.addr);
    assert!(decoded.players.is_empty());
}

#[test]
fn player_pointer_round_trip() {
    let p = Player {
        name: b"Alice".to_vec(),
        uuid: 0xF9168C5ECEB24FAAB6BF329BF39FA1E4,
        servers: vec![addr4(1, 1, 1, 1, 1)],
    };
    let decoded = Player::deserialize_pointer(&p.serialize_pointer()).unwrap();
    assert_eq!(decoded.name, p.name);
    assert_eq!(decoded.uuid, p.uuid);
    // the pointer form carries no relations by construction
    assert!(decoded.servers.is_empty());
}

#[test]
fn server_full_round_trip_three_players() {
    // a server with three related players comes back with all three,
    // each with an empty relation set of its own
    let players = vec![
        Player { name: b"Alice".to_vec(), uuid: 1, servers: vec![addr4(1, 2, 3, 4, 1)] },
        Player { name: b"Bob".to_vec(), uuid: 2, servers: Vec::new() },
        Player { name: b"Eve".to_vec(), uuid: 3, servers: Vec::new() },
    ];
    let s = Server { addr: addr4(1, 2, 3, 4, 25565), players };
    let decoded = Server::deserialize(&s.serialize()).unwrap();
    assert_eq!(decoded.addr, s.addr);
    assert_eq!(decoded.players.len(), 3);
    for (d, o) in decoded.players.iter().zip(s.players.iter()) {
        assert_eq!(d.name, o.name);
        assert_eq!(d.uuid, o.uuid);
        assert!(d.servers.is_empty());
    }
}

#[test]
fn player_full_round_trip_keeps_id_and_relations() {
    // the full form of a player does not carry its name, only the id and
    // the related addresses survive the round trip
    let p = Player {
        name: b"Alice".to_vec(),
        uuid: 99,
        servers: vec![addr4(1, 2, 3, 4, 25565), addr4(9, 9, 9, 9, 80)],
    };
    let decoded = Player::deserialize(&p.serialize()).unwrap();
    assert!(decoded.name.is_empty());
    assert_eq!(decoded.uuid, 99);
    assert_eq!(decoded.servers, p.servers);
}

#[test]
fn decode_ignores_trailing_bytes() {
    let s = Server { addr: addr4(10, 0, 0, 1, 8080), players: Vec::new() };
    let mut bytes = s.serialize_pointer();
    bytes.extend_from_slice(b"garbage");
    let decoded = Server::deserialize_pointer(&bytes).unwrap();
    assert_eq!(decoded.addr, s.addr);
}

#[test]
fn truncated_buffers_are_refused() {
    let p = Player { name: b"Alice".to_vec(), uuid: 7, servers: Vec::new() };
    let bytes = p.serialize_pointer();
    assert_eq!(
        Player::deserialize_pointer(&bytes[0..bytes.len() - 1]),
        Err(DecodeError::Truncated)
    );
    // a name length that overruns the buffer
    assert_eq!(Player::deserialize_pointer(&[5u8, b'A']), Err(DecodeError::Truncated));
}

#[test]
fn empty_buffer_is_a_bad_varint() {
    assert_eq!(Player::deserialize_pointer(&[]), Err(DecodeError::BadVarint));
    assert_eq!(Server::deserialize_pointer(&[]), Err(DecodeError::BadVarint));
}

#[test]
fn non_ascii_name_is_refused() {
    let mut bytes = vec![2u8, 0xC3, 0xA9];
    bytes.extend_from_slice(&id_bytes(7));
    assert_eq!(Player::deserialize_pointer(&bytes), Err(DecodeError::InvalidName));
}

#[test]
fn malformed_address_text_is_refused() {
    let mut bytes = vec![5u8];
    bytes.extend_from_slice(b"horse");
    assert_eq!(Server::deserialize_pointer(&bytes), Err(DecodeError::BadAddress));

    // leading zeros are not the canonical text of an address
    let mut bytes = vec![14u8];
    bytes.extend_from_slice(b"01.2.3.4:25565");
    assert_eq!(Server::deserialize_pointer(&bytes), Err(DecodeError::BadAddress));

    // an out-of-range octet
    let mut bytes = vec![15u8];
    bytes.extend_from_slice(b"256.2.3.4:25565");
    assert_eq!(Server::deserialize_pointer(&bytes), Err(DecodeError::BadAddress));

    // trailing bytes inside the declared length
    let mut bytes = vec![14u8];
    bytes.extend_from_slice(b"1.2.3.4:25565 ");
    assert_eq!(Server::deserialize_pointer(&bytes), Err(DecodeError::BadAddress));
}

#[test]
fn full_decode_orders_and_deduplicates_players() {
    // decoding folds pointers through ordered insertion, as the ordered
    // sets of the index do: duplicates collapse, order is by identity
    let zoe = Player { name: b"Zoe".to_vec(), uuid: 9, servers: Vec::new() };
    let al = Player { name: b"Al".to_vec(), uuid: 1, servers: Vec::new() };
    let mut bytes = Server { addr: addr4(1, 2, 3, 4, 1), players: Vec::new() }.serialize_pointer();
    bytes.push(3);
    bytes.extend_from_slice(&zoe.serialize_pointer());
    bytes.extend_from_slice(&al.serialize_pointer());
    bytes.extend_from_slice(&al.serialize_pointer());
    let decoded = Server::deserialize(&bytes).unwrap();
    assert_eq!(decoded.players.len(), 2);
    assert_eq!(decoded.players[0].name, b"Al".to_vec());
    assert_eq!(decoded.players[1].name, b"Zoe".to_vec());
}

#[test]
fn varint_agrees_with_the_wire_library() {
    for len in [0usize, 1, 127, 128, 300, 999] {
        let p = Player { name: vec![b'x'; len], uuid: 0, servers: Vec::new() };
        let bytes = p.serialize_pointer();
        let prefix = (len as u64).encode_var_vec();
        assert_eq!(&bytes[0..prefix.len()], prefix.as_slice());
    }
}

#[test]
fn extreme_address_round_trip() {
    let s = Server { addr: addr4(255, 255, 255, 255, 65535), players: Vec::new() };
    let bytes = s.serialize_pointer();
    let mut expect = vec![21u8];
    expect.extend_from_slice(b"255.255.255.255:65535");
    assert_eq!(bytes, expect);
    let decoded = Server::deserialize_pointer(&bytes).unwrap();
    assert_eq!(decoded.addr, s.addr);

    let z = Server { addr: addr4(0, 0, 0, 0, 0), players: Vec::new() };
    let decoded = Server::deserialize_pointer(&z.serialize_pointer()).unwrap();
    assert_eq!(decoded.addr, z.addr);
}

#[test]
fn short_player_list_is_refused() {
    // a count of three followed by only two player pointers: the third
    // read starts on an empty buffer and its length prefix is missing
    let al = Player { name: b"Al".to_vec(), uuid: 1, servers: Vec::new() };
    let bo = Player { name: b"Bo".to_vec(), uuid: 2, servers: Vec::new() };
    let mut bytes = Server { addr: addr4(1, 2, 3, 4, 1), players: Vec::new() }.serialize_pointer();
    bytes.push(3);
    bytes.extend_from_slice(&al.serialize_pointer());
    bytes.extend_from_slice(&bo.serialize_pointer());
    assert_eq!(Server::deserialize(&bytes), Err(DecodeError::BadVarint));
    // cut inside the second pointer instead: that is a truncation
    let cut = bytes.len() - 4;
    assert_eq!(Server::deserialize(&bytes[0..cut]), Err(DecodeError::Truncated));
}
