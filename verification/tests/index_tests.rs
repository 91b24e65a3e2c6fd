use server_index::net::{HostAddr, NetAddress};
use server_index::player_entry::Player;
use server_index::server_entry::Server;
use server_index::server_map::{IndexError, ServerMap};
use server_index::{u16s_to_u32, u8s_to_u16, observation_from_record, DecodeError};

fn v4(o0: u8, o1: u8, o2: u8, o3: u8, port: u16) -> NetAddress {
    NetAddress { host: HostAddr::V4 { o0, o1, o2, o3 }, port }
}

fn player(name: &[u8], id: u128) -> Player {
    Player { name: name.to_vec(), uuid: id, servers: Vec::new() }
}

fn observation(addr: NetAddress, name: &[u8], id: u128) -> Server {
    Server { addr, players: vec![player(name, id)] }
}

#[test]
fn u8s_to_u16_joins_octets() {
    assert_eq!(u8s_to_u16(1, 2), 258);
    assert_eq!(u8s_to_u16(0, 0), 0);
    assert_eq!(u8s_to_u16(255, 255), 65535);
}

#[test]
fn u16s_to_u32_joins_halves() {
    assert_eq!(u16s_to_u32(1, 2), 65538);
    assert_eq!(u16s_to_u32(65535, 65535), u32::MAX);
}

#[test]
fn two_players_one_address() {
    // two observations of the same address merge into one canonical
    // server that knows both players, and both players know it back
    let addr = v4(1, 2, 3, 4, 25565);
    let mut map = ServerMap::new();
    map.insert(observation(addr, b"Alice", 1)).unwrap();
    map.insert(observation(addr, b"Bob", 2)).unwrap();

    let found = map.find(addr).unwrap().expect("address must be indexed");
    assert_eq!(found.addr, addr);
    assert_eq!(found.players.len(), 2);
    assert_eq!(found.players[0].name, b"Alice".to_vec());
    assert_eq!(found.players[1].name, b"Bob".to_vec());

    let players = map.players();
    assert_eq!(players.len(), 2);
    for p in players.iter() {
        assert_eq!(p.servers, vec![addr]);
    }
}

#[test]
fn one_player_two_addresses() {
    // the same identity observed on two servers stays one record that
    // relates to both addresses
    let addr1 = v4(1, 2, 3, 4, 25565);
    let addr2 = v4(9, 9, 9, 9, 1000);
    let mut map = ServerMap::new();
    map.insert(observation(addr1, b"Alice", 1)).unwrap();
    map.insert(observation(addr2, b"Alice", 1)).unwrap();

    let players = map.players();
    assert_eq!(players.len(), 1);
    assert_eq!(players[0].name, b"Alice".to_vec());
    assert_eq!(players[0].uuid, 1);
    assert_eq!(players[0].servers, vec![addr1, addr2]);
}

#[test]
fn insert_twice_is_idempotent() {
    // repeating an observation leaves the index exactly as it was
    let addr = v4(1, 2, 3, 4, 25565);
    let mut map = ServerMap::new();
    map.insert(observation(addr, b"Alice", 1)).unwrap();
    let players_once: Vec<(Vec<u8>, u128, Vec<NetAddress>)> = map
        .players()
        .iter()
        .map(|p| (p.name.clone(), p.uuid, p.servers.clone()))
        .collect();
    let server_once = map.find(addr).unwrap().unwrap();
    let names_once: Vec<Vec<u8>> = server_once.players.iter().map(|p| p.name.clone()).collect();

    map.insert(observation(addr, b"Alice", 1)).unwrap();
    let players_twice: Vec<(Vec<u8>, u128, Vec<NetAddress>)> = map
        .players()
        .iter()
        .map(|p| (p.name.clone(), p.uuid, p.servers.clone()))
        .collect();
    let server_twice = map.find(addr).unwrap().unwrap();
    let names_twice: Vec<Vec<u8>> = server_twice.players.iter().map(|p| p.name.clone()).collect();

    assert_eq!(players_once, players_twice);
    assert_eq!(names_once, names_twice);
}

#[test]
fn player_table_stays_ordered() {
    // whatever the arrival order, the table is ordered by (name, id)
    let addr = v4(1, 2, 3, 4, 25565);
    let mut map = ServerMap::new();
    map.insert(observation(addr, b"Zoe", 9)).unwrap();
    map.insert(observation(addr, b"Al", 3)).unwrap();
    map.insert(observation(addr, b"Al", 1)).unwrap();
    map.insert(observation(addr, b"Bob", 2)).unwrap();

    let players = map.players();
    let keys: Vec<(Vec<u8>, u128)> = players.iter().map(|p| (p.name.clone(), p.uuid)).collect();
    assert_eq!(
        keys,
        vec![
            (b"Al".to_vec(), 1),
            (b"Al".to_vec(), 3),
            (b"Bob".to_vec(), 2),
            (b"Zoe".to_vec(), 9),
        ]
    );
}

#[test]
fn find_unknown_address_is_none() {
    let mut map = ServerMap::new();
    map.insert(observation(v4(1, 2, 3, 4, 25565), b"Alice", 1)).unwrap();
    assert!(map.find(v4(1, 2, 3, 4, 25566)).unwrap().is_none());
    assert!(map.find(v4(1, 2, 9, 9, 25565)).unwrap().is_none());
    assert!(map.find(v4(7, 7, 3, 4, 25565)).unwrap().is_none());
}

#[test]
fn ipv6_is_rejected() {
    let v6 = NetAddress { host: HostAddr::V6 { hi: 1, lo: 2 }, port: 80 };
    let mut map = ServerMap::new();
    assert_eq!(
        map.insert(Server { addr: v6, players: Vec::new() }),
        Err(IndexError::NotIpv4)
    );
    assert_eq!(map.find(v6), Err(IndexError::NotIpv4));
    assert_eq!(map.size(), 0);
}

#[test]
fn size_counts_first_level_shards() {
    let mut map = ServerMap::new();
    assert_eq!(map.size(), 0);
    map.insert(observation(v4(1, 2, 3, 4, 1), b"Al", 1)).unwrap();
    map.insert(observation(v4(1, 2, 9, 9, 2), b"Al", 1)).unwrap();
    assert_eq!(map.size(), 1);
    map.insert(observation(v4(8, 8, 3, 4, 1), b"Al", 1)).unwrap();
    assert_eq!(map.size(), 2);
}

#[test]
fn merge_unions_relation_sets() {
    // Player::update is a deep union: nothing present on either side is
    // dropped, and an entry present on both sides stays single
    let a1 = v4(1, 1, 1, 1, 1);
    let a2 = v4(2, 2, 2, 2, 2);
    let a3 = v4(3, 3, 3, 3, 3);
    let mut left = Player { name: b"Al".to_vec(), uuid: 7, servers: vec![a1, a2] };
    let right = Player { name: b"Al".to_vec(), uuid: 7, servers: vec![a2, a3] };
    left.update(&right);
    assert_eq!(left.servers, vec![a1, a2, a3]);
}

#[test]
fn server_merge_keeps_both_sides() {
    let addr = v4(1, 2, 3, 4, 25565);
    let mut left = Server { addr, players: vec![player(b"Alice", 1)] };
    let right = Server { addr, players: vec![player(b"Alice", 1), player(b"Bob", 2)] };
    left.update(&right);
    assert_eq!(left.players.len(), 2);
    assert_eq!(left.players[0].name, b"Alice".to_vec());
    assert_eq!(left.players[1].name, b"Bob".to_vec());
}

#[test]
fn player_clone_is_identity_only() {
    let p = Player { name: b"Al".to_vec(), uuid: 7, servers: vec![v4(1, 1, 1, 1, 1)] };
    let c = p.clone();
    assert_eq!(c.name, p.name);
    assert_eq!(c.uuid, p.uuid);
    assert!(c.servers.is_empty());
}

#[test]
fn identity_equality_ignores_relations() {
    let p1 = Player { name: b"Al".to_vec(), uuid: 7, servers: vec![v4(1, 1, 1, 1, 1)] };
    let p2 = Player { name: b"Al".to_vec(), uuid: 7, servers: Vec::new() };
    let p3 = Player { name: b"Al".to_vec(), uuid: 8, servers: Vec::new() };
    assert!(p1 == p2);
    assert!(p1 != p3);

    let s1 = Server { addr: v4(1, 2, 3, 4, 1), players: vec![player(b"Al", 1)] };
    let s2 = Server { addr: v4(1, 2, 3, 4, 1), players: Vec::new() };
    let s3 = Server { addr: v4(1, 2, 3, 4, 2), players: Vec::new() };
    assert!(s1 == s2);
    assert!(s1 != s3);
}

#[test]
fn observation_record_is_decoded() {
    let rec = [1u8, 2, 3, 4, 0x63, 0xDD, b'A', b'l'];
    let server = observation_from_record(&rec, 42).unwrap();
    assert_eq!(server.addr, v4(1, 2, 3, 4, 25565));
    assert_eq!(server.players.len(), 1);
    assert_eq!(server.players[0].name, b"Al".to_vec());
    assert_eq!(server.players[0].uuid, 42);
    assert!(server.players[0].servers.is_empty());
}

#[test]
fn observation_record_refuses_non_ascii_name() {
    let rec = [1u8, 2, 3, 4, 0, 80, 0xC3, 0xA9];
    assert_eq!(observation_from_record(&rec, 42), Err(DecodeError::InvalidName));
}

#[test]
fn snapshot_of_empty_index() {
    let map = ServerMap::new();
    assert_eq!(map.players_snapshot(), vec![0u8]);
    assert!(map.shard_list().is_empty());
}

#[test]
fn snapshot_lists_used_shards_in_order() {
    let mut map = ServerMap::new();
    map.insert(observation(v4(9, 0, 1, 1, 1), b"Al", 1)).unwrap();
    map.insert(observation(v4(1, 2, 1, 1, 1), b"Al", 1)).unwrap();
    assert_eq!(map.shard_list(), vec![258u16, 2304u16]);
}

#[test]
fn shard_snapshot_holds_full_servers() {
    let addr = v4(1, 2, 3, 4, 25565);
    let mut map = ServerMap::new();
    map.insert(observation(addr, b"Al", 1)).unwrap();
    let bytes = map.shard_snapshot(258);
    // one server: count 1, then its full form
    let server = map.find(addr).unwrap().unwrap();
    let mut expect = vec![1u8];
    expect.extend_from_slice(&server.serialize());
    assert_eq!(bytes, expect);
    // an unused shard holds nothing
    assert_eq!(map.shard_snapshot(259), vec![0u8]);
}

#[test]
fn players_snapshot_is_count_then_records() {
    let addr = v4(1, 2, 3, 4, 25565);
    let mut map = ServerMap::new();
    map.insert(observation(addr, b"Al", 1)).unwrap();
    let bytes = map.players_snapshot();
    let mut expect = vec![1u8];
    expect.extend_from_slice(&map.players()[0].serialize());
    assert_eq!(bytes, expect);
}

#[test]
fn identity_order_is_name_then_id() {
    let al1 = player(b"Al", 1);
    let al2 = player(b"Al", 2);
    let zoe = player(b"Zoe", 0);
    assert!(al1 < al2);
    assert!(al2 < zoe);
    assert!(al1 < zoe);
    assert!(!(zoe < al1));
    assert_eq!(al1.partial_cmp(&al1), Some(std::cmp::Ordering::Equal));
}
