//! An in-memory index of network-reachable servers and the players observed
//! on them. Observations stream in as (address, player) sightings; the index
//! merges them into canonical `Server` and `Player` records, keeps the
//! many-to-many relation between the two symmetric, and serialises the whole
//! graph to a compact binary form for snapshots.
use vstd::prelude::*;

pub mod net;
pub mod varint;
pub mod text;
pub mod player_entry;
pub mod server_entry;
pub mod server_map;
pub mod snapshot;
pub mod laws;

use crate::net::{HostAddr, NetAddress};
use crate::player_entry::{Player, PlayerV};
use crate::server_entry::Server;

verus! {

/// Why a binary decode was refused. Malformed input is always surfaced to
/// the caller, never ignored.
#[derive(Clone, Copy, PartialEq, Eq, Structural, Debug)]
pub enum DecodeError {
    /// A length or count prefix is not a well-formed varint.
    BadVarint,
    /// The buffer ended inside a field, or a declared length overruns it.
    Truncated,
    /// A player name held a byte outside ASCII.
    InvalidName,
    /// Address text that is not a dotted-quad IPv4 socket address.
    BadAddress,
}

/// Joins two bytes into one 16-bit value, high byte first. The sharded
/// index uses this to derive its two shard keys from an IPv4 address.
pub fn u8s_to_u16(a: u8, b: u8) -> (r: u16)
    ensures
        r == a * 256 + b,
{
    proof {
        assert(((a as u16) << 8u16) | (b as u16) == (a as u16) * 256 + (b as u16))
            by (bit_vector);
    }
    ((a as u16) << 8u16) | (b as u16)
}

/// Turns one fixed eight-byte observation record into a transient server:
/// bytes 0 to 3 are the IPv4 octets, 4 and 5 the port in network order,
/// 6 and 7 a two-byte player name; the caller supplies the player id. A
/// record whose name bytes are not ASCII is refused.
pub fn observation_from_record(rec: &[u8], id: u128) -> (r: Result<Server, DecodeError>)
    requires
        rec@.len() == 8,
    ensures
        match r {
            Ok(s) => {
                &&& rec@[6] < 128 && rec@[7] < 128
                &&& s@.addr == (NetAddress {
                    host: HostAddr::V4 { o0: rec@[0], o1: rec@[1], o2: rec@[2], o3: rec@[3] },
                    port: (rec@[4] * 256 + rec@[5]) as u16,
                })
                &&& s@.players == seq![
                    PlayerV { name: rec@.subrange(6, 8), id, servers: Seq::empty() },
                ]
                &&& s.wf()
            },
            Err(e) => e == DecodeError::InvalidName && (rec@[6] >= 128 || rec@[7] >= 128),
        },
{
    if rec[6] >= 128 || rec[7] >= 128 {
        return Err(DecodeError::InvalidName);
    }
    let mut name: Vec<u8> = Vec::new();
    name.push(rec[6]);
    name.push(rec[7]);
    let player = Player { name, uuid: id, servers: Vec::new() };
    let mut players: Vec<Player> = Vec::new();
    players.push(player);
    let server = Server {
        addr: NetAddress {
            host: HostAddr::V4 { o0: rec[0], o1: rec[1], o2: rec[2], o3: rec[3] },
            port: u8s_to_u16(rec[4], rec[5]),
        },
        players,
    };
    proof {
        assert(server@.players =~= seq![
            PlayerV { name: rec@.subrange(6, 8), id, servers: Seq::empty() },
        ]) by {
            assert(server@.players.len() == 1);
            assert(server@.players[0].name =~= rec@.subrange(6, 8));
            assert(server@.players[0].servers =~= Seq::<NetAddress>::empty());
        }
        assert(server.wf());
    }
    Ok(server)
}

/// Joins two 16-bit values into one 32-bit value, high half first.
pub fn u16s_to_u32(a: u16, b: u16) -> (r: u32)
    ensures
        r == a * 65536 + b,
{
    proof {
        assert(((a as u32) << 16u32) | (b as u32) == (a as u32) * 65536 + (b as u32))
            by (bit_vector);
    }
    ((a as u32) << 16u32) | (b as u32)
}

} // verus!
