//! The byte layout of a snapshot. One file holds every canonical player
//! in full form behind a count; one file per first-level shard holds that
//! shard's servers in full form behind a count, walked in ascending key
//! order so the bytes are deterministic.
use vstd::prelude::*;
use crate::varint::spec_varint;
use crate::player_entry::{PlayerV, player_full_enc};
use crate::server_entry::{ServerV, server_full_enc};
use crate::server_map::ServerMapV;

verus! {

/// The concatenated full forms of a list of players.
pub open spec fn cat_player_fulls(ps: Seq<PlayerV>) -> Seq<u8>
    decreases ps.len(),
{
    if ps.len() == 0 {
        Seq::empty()
    } else {
        player_full_enc(ps[0]) + cat_player_fulls(ps.drop_first())
    }
}

/// Concatenation of full forms splits at a list boundary.
pub proof fn lemma_cat_player_fulls_append(a: Seq<PlayerV>, b: Seq<PlayerV>)
    ensures
        cat_player_fulls(a + b) == cat_player_fulls(a) + cat_player_fulls(b),
    decreases a.len(),
{
    if a.len() == 0 {
        assert(a + b =~= b);
        assert(cat_player_fulls(a) =~= Seq::empty());
        assert(cat_player_fulls(a) + cat_player_fulls(b) =~= cat_player_fulls(b));
    } else {
        assert((a + b)[0] == a[0]);
        assert((a + b).drop_first() =~= a.drop_first() + b);
        lemma_cat_player_fulls_append(a.drop_first(), b);
        assert(cat_player_fulls(a + b) =~= cat_player_fulls(a) + cat_player_fulls(b));
    }
}

/// The bytes of the player file: a varint count, then every canonical
/// player in full form, in table order.
pub open spec fn players_file_enc(ps: Seq<PlayerV>) -> Seq<u8> {
    spec_varint(ps.len()) + cat_player_fulls(ps)
}

/// The concatenated full forms of a list of servers.
pub open spec fn cat_server_fulls(ss: Seq<ServerV>) -> Seq<u8>
    decreases ss.len(),
{
    if ss.len() == 0 {
        Seq::empty()
    } else {
        server_full_enc(ss[0]) + cat_server_fulls(ss.drop_first())
    }
}

/// Concatenation of full forms splits at a list boundary.
pub proof fn lemma_cat_server_fulls_append(a: Seq<ServerV>, b: Seq<ServerV>)
    ensures
        cat_server_fulls(a + b) == cat_server_fulls(a) + cat_server_fulls(b),
    decreases a.len(),
{
    if a.len() == 0 {
        assert(a + b =~= b);
        assert(cat_server_fulls(a) =~= Seq::empty());
        assert(cat_server_fulls(a) + cat_server_fulls(b) =~= cat_server_fulls(b));
    } else {
        assert((a + b)[0] == a[0]);
        assert((a + b).drop_first() =~= a.drop_first() + b);
        lemma_cat_server_fulls_append(a.drop_first(), b);
        assert(cat_server_fulls(a + b) =~= cat_server_fulls(a) + cat_server_fulls(b));
    }
}

/// The servers of one port-level shard with port below `n`, ascending.
pub open spec fn leaf_servers_upto(leaf: Map<u16, ServerV>, n: int) -> Seq<ServerV>
    decreases n,
{
    if n <= 0 {
        Seq::empty()
    } else {
        leaf_servers_upto(leaf, n - 1) + (if leaf.contains_key((n - 1) as u16) {
            seq![leaf[(n - 1) as u16]]
        } else {
            Seq::empty()
        })
    }
}

/// The servers of one second-level shard with second key below `n`,
/// ascending by key then port.
pub open spec fn mid_servers_upto(mid: Map<u16, Map<u16, ServerV>>, n: int) -> Seq<ServerV>
    decreases n,
{
    if n <= 0 {
        Seq::empty()
    } else {
        mid_servers_upto(mid, n - 1) + (if mid.contains_key((n - 1) as u16) {
            leaf_servers_upto(mid[(n - 1) as u16], 65536)
        } else {
            Seq::empty()
        })
    }
}

/// Every server stored under one first-level shard, in ascending order
/// of second key and port.
pub open spec fn shard_servers(m: ServerMapV, shard: u16) -> Seq<ServerV> {
    if m.servers.contains_key(shard) {
        mid_servers_upto(m.servers[shard], 65536)
    } else {
        Seq::empty()
    }
}

/// The bytes of one shard file: a varint count, then that shard's
/// servers in full form.
pub open spec fn shard_file_enc(m: ServerMapV, shard: u16) -> Seq<u8> {
    spec_varint(shard_servers(m, shard).len()) + cat_server_fulls(shard_servers(m, shard))
}

/// A port-level shard holds at most one server per port value.
pub proof fn lemma_leaf_servers_upto_len(leaf: Map<u16, ServerV>, n: int)
    ensures
        leaf_servers_upto(leaf, n).len() <= (if n >= 0 { n } else { 0 }),
    decreases n,
{
    if n > 0 {
        lemma_leaf_servers_upto_len(leaf, n - 1);
    }
}

/// A second-level shard holds at most 65536 servers per second key.
pub proof fn lemma_mid_servers_upto_len(mid: Map<u16, Map<u16, ServerV>>, n: int)
    ensures
        mid_servers_upto(mid, n).len() <= (if n >= 0 { 65536 * n } else { 0 }),
    decreases n,
{
    if n > 0 {
        lemma_mid_servers_upto_len(mid, n - 1);
        if mid.contains_key((n - 1) as u16) {
            lemma_leaf_servers_upto_len(mid[(n - 1) as u16], 65536);
        }
    }
}

} // verus!
