//! The sharded server index. Addresses are split into two 16-bit shard
//! keys and a port; servers live in a three-level map under those keys,
//! players in a single identity-ordered table. `insert` merges an incoming
//! observation into the canonical records on both sides of the relation;
//! `find` is a pure lookup.
use std::collections::HashMap;
use vstd::prelude::*;
use crate::net::{HostAddr, NetAddress, addr_insert, union_addrs, insert_addr_sorted,
    addr_same, lemma_addr_insert_sorted, lemma_union_addrs_sorted};
use crate::player_entry::{Player, PlayerV, player_v_wf, players_sorted, player_insert,
    player_merge, merge_players, player_index_of, view_players, find_player_index,
    insert_player_sorted, lemma_player_index_of, lemma_player_insert_sorted,
    lemma_player_insert_members, lemma_addr_insert_v4, lemma_union_addrs_v4};
use crate::server_entry::{Server, ServerV, server_v_wf, server_full_enc};
use crate::snapshot::{cat_player_fulls, players_file_enc, cat_server_fulls, shard_servers,
    shard_file_enc, leaf_servers_upto, mid_servers_upto, lemma_cat_player_fulls_append,
    lemma_cat_server_fulls_append, lemma_leaf_servers_upto_len, lemma_mid_servers_upto_len};
use crate::varint::{spec_varint, write_varint};
use crate::player_entry::player_full_enc;
use crate::u8s_to_u16;

verus! {

broadcast use vstd::std_specs::hash::group_hash_axioms;

/// Why the index refused an address.
#[derive(Clone, Copy, PartialEq, Eq, Structural, Debug)]
pub enum IndexError {
    /// Only IPv4 addresses are indexed; IPv6 is unsupported by design.
    NotIpv4,
}

/// The mathematical shape of the index: the three-level shard map and the
/// canonical player table.
#[verifier::ext_equal]
pub ghost struct ServerMapV {
    pub servers: Map<u16, Map<u16, Map<u16, ServerV>>>,
    pub players: Seq<PlayerV>,
}

/// The index itself.
pub struct ServerMap {
    server_array: HashMap<u16, HashMap<u16, HashMap<u16, Server>>>,
    player_array: Vec<Player>,
}

/// The first shard key of an IPv4 address: its top two octets.
pub open spec fn shard_key_hi(a: NetAddress) -> u16 {
    match a.host {
        HostAddr::V4 { o0, o1, .. } => (o0 * 256 + o1) as u16,
        HostAddr::V6 { .. } => 0,
    }
}

/// The second shard key of an IPv4 address: its bottom two octets.
pub open spec fn shard_key_lo(a: NetAddress) -> u16 {
    match a.host {
        HostAddr::V4 { o2, o3, .. } => (o2 * 256 + o3) as u16,
        HostAddr::V6 { .. } => 0,
    }
}

/// The view of one port-level shard.
pub open spec fn view_leaf(leaf: Map<u16, Server>) -> Map<u16, ServerV> {
    leaf.map_values(|s: Server| s@)
}

/// The view of one second-level shard.
pub open spec fn view_mid(mid: Map<u16, HashMap<u16, Server>>) -> Map<u16, Map<u16, ServerV>> {
    mid.map_values(|leaf: HashMap<u16, Server>| view_leaf(leaf@))
}

/// The view of the whole shard table.
pub open spec fn view_top(top: Map<u16, HashMap<u16, HashMap<u16, Server>>>)
    -> Map<u16, Map<u16, Map<u16, ServerV>>> {
    top.map_values(|mid: HashMap<u16, HashMap<u16, Server>>| view_mid(mid@))
}

impl View for ServerMap {
    type V = ServerMapV;

    closed spec fn view(&self) -> ServerMapV {
        ServerMapV {
            servers: view_top(self.server_array@),
            players: view_players(self.player_array@),
        }
    }
}

/// A server stored under the given shard keys and port.
pub open spec fn has_server_at(m: ServerMapV, a: u16, b: u16, p: u16) -> bool {
    m.servers.contains_key(a) && m.servers[a].contains_key(b) && m.servers[a][b].contains_key(p)
}

/// The server stored under the given shard keys and port.
pub open spec fn server_at(m: ServerMapV, a: u16, b: u16, p: u16) -> ServerV {
    m.servers[a][b][p]
}

/// A stored server belongs at its slot: it is a well-formed IPv4 record
/// whose address decomposes into exactly those keys.
pub open spec fn stored_server_ok(m: ServerMapV, a: u16, b: u16, p: u16) -> bool {
    let sv = server_at(m, a, b, p);
    &&& server_v_wf(sv)
    &&& sv.addr.is_v4()
    &&& shard_key_hi(sv.addr) == a
    &&& shard_key_lo(sv.addr) == b
    &&& sv.addr.port == p
}

/// Well-formedness of the whole index: the player table is ordered by
/// identity and holds well-formed records, and every stored server is
/// well formed and keyed by its own address.
pub open spec fn map_v_wf(m: ServerMapV) -> bool {
    &&& players_sorted(m.players)
    &&& forall|j: int| 0 <= j < m.players.len() ==> player_v_wf(#[trigger] m.players[j])
    &&& forall|a: u16, b: u16, p: u16| #[trigger] has_server_at(m, a, b, p)
        ==> stored_server_ok(m, a, b, p)
}

/// One step of the player-table update for an observed player `q` seen at
/// `addr`: a known identity is deep-merged and gains the address; an
/// unknown one enters the table knowing that address alone, as the
/// identity clone of the merge loop drops relations.
pub open spec fn upsert_player(ps: Seq<PlayerV>, q: PlayerV, addr: NetAddress) -> Seq<PlayerV> {
    let i = player_index_of(ps, q.name, q.id);
    if i >= 0 {
        let merged = player_merge(ps[i], q);
        ps.update(i, PlayerV {
            name: merged.name,
            id: merged.id,
            servers: addr_insert(merged.servers, addr),
        })
    } else {
        player_insert(ps, PlayerV { name: q.name, id: q.id, servers: seq![addr] })
    }
}

/// The player-table update for a whole observation, first to last.
pub open spec fn upsert_players(ps: Seq<PlayerV>, qs: Seq<PlayerV>, addr: NetAddress)
    -> Seq<PlayerV>
    decreases qs.len(),
{
    if qs.len() == 0 {
        ps
    } else {
        upsert_players(upsert_player(ps, qs[0], addr), qs.drop_first(), addr)
    }
}

/// The canonical server after an insert: the stored record with the
/// observation merged in, or the observation itself if the slot was free.
pub open spec fn canon_after(m: ServerMapV, sv: ServerV) -> ServerV {
    let a = shard_key_hi(sv.addr);
    let b = shard_key_lo(sv.addr);
    let p = sv.addr.port;
    if has_server_at(m, a, b, p) {
        let c = server_at(m, a, b, p);
        ServerV { addr: c.addr, players: merge_players(c.players, sv.players) }
    } else {
        sv
    }
}

/// What `insert` does to the whole index.
pub open spec fn spec_insert(m: ServerMapV, sv: ServerV) -> ServerMapV {
    if !sv.addr.is_v4() {
        m
    } else {
        let a = shard_key_hi(sv.addr);
        let b = shard_key_lo(sv.addr);
        let p = sv.addr.port;
        let mid = if m.servers.contains_key(a) { m.servers[a] } else { Map::empty() };
        let leaf = if mid.contains_key(b) { mid[b] } else { Map::empty() };
        ServerMapV {
            servers: m.servers.insert(a, mid.insert(b, leaf.insert(p, canon_after(m, sv)))),
            players: upsert_players(m.players, sv.players, sv.addr),
        }
    }
}

/// A v4 address is determined by its shard keys and port.
pub proof fn lemma_shard_keys_inject(x: NetAddress, y: NetAddress)
    requires
        x.is_v4(),
        y.is_v4(),
        shard_key_hi(x) == shard_key_hi(y),
        shard_key_lo(x) == shard_key_lo(y),
        x.port == y.port,
    ensures
        x == y,
{
    match (x.host, y.host) {
        (HostAddr::V4 { o0: a0, o1: a1, o2: a2, o3: a3 },
         HostAddr::V4 { o0: b0, o1: b1, o2: b2, o3: b3 }) => {
            assert(a0 == b0 && a1 == b1) by (nonlinear_arith)
                requires
                    a0 * 256 + a1 == b0 * 256 + b1,
                    a1 < 256, b1 < 256, a0 < 256, b0 < 256,
            ;
            assert(a2 == b2 && a3 == b3) by (nonlinear_arith)
                requires
                    a2 * 256 + a3 == b2 * 256 + b3,
                    a3 < 256, b3 < 256, a2 < 256, b2 < 256,
            ;
        },
        _ => {},
    }
}

/// What `find` sees: the canonical server under the address's keys.
pub open spec fn spec_find(m: ServerMapV, addr: NetAddress) -> Option<ServerV> {
    let a = shard_key_hi(addr);
    let b = shard_key_lo(addr);
    let p = addr.port;
    if has_server_at(m, a, b, p) {
        Some(server_at(m, a, b, p))
    } else {
        None
    }
}

/// Updates the canonical player table with one observed player: merge
/// into the known record of that identity and make sure the observed
/// address is related, or enter a fresh record related to it alone.
fn upsert_entry(list: &mut Vec<Player>, q: &Player, addr: NetAddress)
    requires
        addr.is_v4(),
        players_sorted(view_players(old(list)@)),
        forall|j: int| 0 <= j < old(list)@.len()
            ==> player_v_wf(#[trigger] view_players(old(list)@)[j]),
        player_v_wf(q@),
    ensures
        view_players(final(list)@) == upsert_player(view_players(old(list)@), q@, addr),
        players_sorted(view_players(final(list)@)),
        forall|j: int| 0 <= j < final(list)@.len()
            ==> player_v_wf(#[trigger] view_players(final(list)@)[j]),
{
    let ghost s = view_players(list@);
    proof {
        lemma_player_index_of(s, q@.name, q@.id);
    }
    match find_player_index(list, &q.name, q.uuid) {
        Some(k) => {
            let ghost merged = player_merge(s[k as int], q@);
            let mut found = list.remove(k);
            found.update(q);
            proof {
                lemma_union_addrs_sorted(s[k as int].servers, q@.servers);
            }
            if !player_has_server(&found, &addr) {
                insert_addr_sorted(&mut found.servers, addr);
            } else {
                proof {
                    lemma_addr_insert_sorted(merged.servers, addr);
                }
            }
            list.insert(k, found);
            proof {
                lemma_union_addrs_v4(s[k as int].servers, q@.servers);
                lemma_addr_insert_v4(merged.servers, addr);
                let s2 = view_players(list@);
                assert(s2 =~= s.update(k as int, PlayerV {
                    name: merged.name,
                    id: merged.id,
                    servers: addr_insert(merged.servers, addr),
                }));
                lemma_addr_insert_sorted(merged.servers, addr);
                assert forall|i: int, j: int| 0 <= i < j < s2.len()
                    implies crate::player_entry::player_lt(s2[i], s2[j]) by {
                    assert(crate::player_entry::player_lt(s[i], s[j]));
                    assert(s2[i].name == s[i].name && s2[i].id == s[i].id);
                    assert(s2[j].name == s[j].name && s2[j].id == s[j].id);
                }
            }
        },
        None => {
            let mut fresh = Player {
                name: vstd::slice::slice_to_vec(q.name.as_slice()),
                uuid: q.uuid,
                servers: Vec::new(),
            };
            fresh.servers.push(addr);
            proof {
                assert(fresh.servers@ =~= seq![addr]);
                assert(player_v_wf(fresh@));
            }
            insert_player_sorted(list, fresh);
            proof {
                let fv = PlayerV { name: q@.name, id: q@.id, servers: seq![addr] };
                lemma_player_insert_sorted(s, fv);
                let s2 = view_players(list@);
                assert forall|j: int| 0 <= j < s2.len()
                    implies player_v_wf(#[trigger] s2[j]) by {
                    assert(s2.contains(s2[j]));
                    lemma_player_insert_members(s, fv, s2[j]);
                    if s.contains(s2[j]) {
                        let m = choose|m: int| 0 <= m < s.len() && s[m] == s2[j];
                        assert(player_v_wf(s[m]));
                    }
                }
            }
        },
    }
}

/// True when the player's relation set holds the given address.
pub fn player_has_server(player: &Player, addr: &NetAddress) -> (r: bool)
    ensures
        r == player@.servers.contains(*addr),
{
    let mut i: usize = 0;
    while i < player.servers.len()
        invariant
            i <= player.servers.len(),
            forall|j: int| 0 <= j < i ==> player.servers@[j] != *addr,
        decreases player.servers.len() - i,
    {
        if addr_same(&player.servers[i], addr) {
            proof {
                assert(player@.servers[i as int] == *addr);
            }
            return true;
        }
        i = i + 1;
    }
    proof {
        if player@.servers.contains(*addr) {
            let j = choose|j: int| 0 <= j < player@.servers.len()
                && player@.servers[j] == *addr;
            assert(false);
        }
    }
    false
}

impl ServerMap {
    /// A well-formed index; `new` establishes it and every operation
    /// preserves it.
    pub open spec fn wf(self) -> bool {
        map_v_wf(self@)
    }

    /// An empty index.
    pub fn new() -> (r: Self)
        ensures
            r@.servers == Map::<u16, Map<u16, Map<u16, ServerV>>>::empty(),
            r@.players == Seq::<PlayerV>::empty(),
            r.wf(),
    {
        let r = ServerMap {
            server_array: HashMap::with_capacity(65536),
            player_array: Vec::new(),
        };
        proof {
            assert(r@.servers =~= Map::<u16, Map<u16, Map<u16, ServerV>>>::empty());
            assert(r@.players =~= Seq::<PlayerV>::empty());
            assert(forall|a: u16, b: u16, p: u16| !has_server_at(r@, a, b, p));
        }
        r
    }

    /// The number of first-level shards in use: a coarse, diagnostic
    /// count, not an entity count.
    pub fn size(&self) -> (r: usize)
        ensures
            r == self@.servers.dom().len(),
    {
        proof {
            assert(self@.servers.dom() =~= self.server_array@.dom());
        }
        self.server_array.len()
    }

    /// Pure lookup of the canonical server for an address; refuses an
    /// address that is not IPv4 and never mutates the index.
    pub fn find(&self, addr: NetAddress) -> (r: Result<Option<&Server>, IndexError>)
        ensures
            match r {
                Ok(opt) => addr.is_v4() && (match opt {
                    Some(s) => spec_find(self@, addr) == Some(s@)
                        && (self.wf() ==> s@.addr == addr),
                    None => spec_find(self@, addr) is None,
                }),
                Err(e) => !addr.is_v4() && e == IndexError::NotIpv4,
            },
    {
        proof {
            if self.wf() && addr.is_v4()
                && has_server_at(self@, shard_key_hi(addr), shard_key_lo(addr), addr.port) {
                assert(stored_server_ok(self@, shard_key_hi(addr), shard_key_lo(addr),
                    addr.port));
                lemma_shard_keys_inject(
                    server_at(self@, shard_key_hi(addr), shard_key_lo(addr), addr.port).addr,
                    addr);
            }
        }
        let (o0, o1, o2, o3) = match addr.host {
            HostAddr::V4 { o0, o1, o2, o3 } => (o0, o1, o2, o3),
            HostAddr::V6 { .. } => {
                return Err(IndexError::NotIpv4);
            },
        };
        let a = u8s_to_u16(o0, o1);
        let b = u8s_to_u16(o2, o3);
        match self.server_array.get(&a) {
            None => Ok(None),
            Some(mid) => {
                match mid.get(&b) {
                    None => Ok(None),
                    Some(leaf) => {
                        match leaf.get(&addr.port) {
                            None => Ok(None),
                            Some(s) => Ok(Some(s)),
                        }
                    },
                }
            },
        }
    }

    /// Inserts one observation. The canonical server for the address is
    /// created or deep-merged, and every attached player is folded into
    /// the canonical player table, related back to this address. Fails
    /// exactly on an address that is not IPv4, leaving the index as it
    /// was.
    pub fn insert(&mut self, server: Server) -> (r: Result<(), IndexError>)
        requires
            old(self).wf(),
            server.wf(),
        ensures
            final(self)@ == spec_insert(old(self)@, server@),
            final(self).wf(),
            r is Ok <==> server@.addr.is_v4(),
            r is Err ==> r == Err::<(), IndexError>(IndexError::NotIpv4)
                && final(self)@ == old(self)@,
    {
        let (o0, o1, o2, o3) = match server.addr.host {
            HostAddr::V4 { o0, o1, o2, o3 } => (o0, o1, o2, o3),
            HostAddr::V6 { .. } => {
                return Err(IndexError::NotIpv4);
            },
        };
        let a = u8s_to_u16(o0, o1);
        let b = u8s_to_u16(o2, o3);
        let port = server.addr.port;
        proof {
            assert(a == shard_key_hi(server@.addr));
            assert(b == shard_key_lo(server@.addr));
        }

        // fold every observed player into the canonical player table
        let ghost ps0 = view_players(old(self).player_array@);
        let ghost qs = view_players(server.players@);
        let mut i: usize = 0;
        proof {
            assert(qs.take(0) =~= Seq::empty());
        }
        while i < server.players.len()
            invariant
                i <= server.players.len(),
                qs == view_players(server.players@),
                server.wf(),
                server@.addr.is_v4(),
                self.server_array == old(self).server_array,
                view_players(self.player_array@)
                    == upsert_players(ps0, qs.take(i as int), server@.addr),
                players_sorted(view_players(self.player_array@)),
                forall|j: int| 0 <= j < self.player_array@.len()
                    ==> player_v_wf(#[trigger] view_players(self.player_array@)[j]),
            decreases server.players.len() - i,
        {
            proof {
                assert(qs.take(i + 1) =~= qs.take(i as int).push(qs[i as int]));
                lemma_upsert_players_snoc(ps0, qs.take(i as int), qs[i as int], server@.addr);
                assert(qs[i as int] == server.players@[i as int]@);
                assert(player_v_wf(server.players@[i as int]@));
            }
            upsert_entry(&mut self.player_array, &server.players[i], server.addr);
            i = i + 1;
        }
        proof {
            assert(qs.take(qs.len() as int) =~= qs);
        }

        // locate or create the shard levels and the canonical server
        let ghost m0 = old(self)@;
        let ghost top0 = self.server_array@;
        let mut mid = match self.server_array.remove(&a) {
            Some(m) => m,
            None => HashMap::new(),
        };
        let ghost midv = if m0.servers.contains_key(a) { m0.servers[a] } else { Map::empty() };
        proof {
            assert(view_mid(mid@) =~= midv);
        }
        let mut leaf = match mid.remove(&b) {
            Some(l) => l,
            None => HashMap::new(),
        };
        let ghost leafv = if midv.contains_key(b) { midv[b] } else { Map::empty() };
        proof {
            assert(view_leaf(leaf@) =~= leafv);
        }
        let canon = match leaf.remove(&port) {
            Some(mut c) => {
                c.update(&server);
                c
            },
            None => server,
        };
        proof {
            assert(canon@ == canon_after(m0, server@));
            assert(server_v_wf(canon@)) by {
                if has_server_at(m0, a, b, port) {
                    assert(stored_server_ok(m0, a, b, port));
                    lemma_merge_players_wf(server_at(m0, a, b, port).players, qs);
                }
            }
        }
        leaf.insert(port, canon);
        mid.insert(b, leaf);
        self.server_array.insert(a, mid);
        proof {
            let mnew = spec_insert(m0, server@);
            assert(view_leaf(leaf@) =~= leafv.insert(port, canon@));
            assert(view_mid(mid@) =~= midv.insert(b, view_leaf(leaf@)));
            assert(view_top(self.server_array@)
                =~= m0.servers.insert(a, view_mid(mid@)));
            assert(self@ =~= mnew);
            lemma_insert_wf(m0, server@);
        }
        Ok(())
    }
}

/// Updating the table with one more observed player is one more upsert.
pub proof fn lemma_upsert_players_snoc(ps: Seq<PlayerV>, qs: Seq<PlayerV>, q: PlayerV,
    addr: NetAddress)
    ensures
        upsert_players(ps, qs.push(q), addr) == upsert_player(upsert_players(ps, qs, addr), q,
            addr),
    decreases qs.len(),
{
    if qs.len() == 0 {
        assert(qs.push(q)[0] == q);
        assert(qs.push(q).drop_first() =~= Seq::empty());
        assert(upsert_players(upsert_player(ps, q, addr), Seq::empty(), addr)
            == upsert_player(ps, q, addr));
        assert(upsert_players(ps, qs, addr) == ps);
    } else {
        assert(qs.push(q)[0] == qs[0]);
        assert(qs.push(q).drop_first() =~= qs.drop_first().push(q));
        lemma_upsert_players_snoc(upsert_player(ps, qs[0], addr), qs.drop_first(), q, addr);
    }
}

/// One merge step keeps a player list ordered and its records well
/// formed.
pub proof fn lemma_merge_one_player_wf(s: Seq<PlayerV>, q: PlayerV)
    requires
        players_sorted(s),
        forall|j: int| 0 <= j < s.len() ==> player_v_wf(#[trigger] s[j]),
        player_v_wf(q),
    ensures
        players_sorted(crate::player_entry::merge_one_player(s, q)),
        forall|j: int| 0 <= j < crate::player_entry::merge_one_player(s, q).len()
            ==> player_v_wf(#[trigger] crate::player_entry::merge_one_player(s, q)[j]),
{
    let r = crate::player_entry::merge_one_player(s, q);
    let i = player_index_of(s, q.name, q.id);
    lemma_player_index_of(s, q.name, q.id);
    if i >= 0 {
        lemma_union_addrs_sorted(s[i].servers, q.servers);
        lemma_union_addrs_v4(s[i].servers, q.servers);
        assert forall|x: int, y: int| 0 <= x < y < r.len()
            implies crate::player_entry::player_lt(r[x], r[y]) by {
            assert(crate::player_entry::player_lt(s[x], s[y]));
            assert(r[x].name == s[x].name && r[x].id == s[x].id);
            assert(r[y].name == s[y].name && r[y].id == s[y].id);
        }
    } else {
        lemma_player_insert_sorted(s, q);
        assert forall|j: int| 0 <= j < r.len() implies player_v_wf(#[trigger] r[j]) by {
            assert(r.contains(r[j]));
            lemma_player_insert_members(s, q, r[j]);
            if s.contains(r[j]) {
                let m = choose|m: int| 0 <= m < s.len() && s[m] == r[j];
                assert(player_v_wf(s[m]));
            }
        }
    }
}

/// Merging a list of well-formed players keeps the target ordered and
/// well formed.
pub proof fn lemma_merge_players_wf(s: Seq<PlayerV>, qs: Seq<PlayerV>)
    requires
        players_sorted(s),
        forall|j: int| 0 <= j < s.len() ==> player_v_wf(#[trigger] s[j]),
        forall|j: int| 0 <= j < qs.len() ==> player_v_wf(#[trigger] qs[j]),
    ensures
        players_sorted(merge_players(s, qs)),
        forall|j: int| 0 <= j < merge_players(s, qs).len()
            ==> player_v_wf(#[trigger] merge_players(s, qs)[j]),
    decreases qs.len(),
{
    if qs.len() > 0 {
        lemma_merge_one_player_wf(s, qs[0]);
        assert(forall|j: int| 0 <= j < qs.drop_first().len()
            ==> #[trigger] qs.drop_first()[j] == qs[j + 1]);
        lemma_merge_players_wf(crate::player_entry::merge_one_player(s, qs[0]), qs.drop_first());
    }
}

/// The whole insert keeps the index well formed: the player table stays
/// ordered by identity, relation sets stay ordered, and every stored
/// server stays keyed by its own address.
pub proof fn lemma_insert_wf(m: ServerMapV, sv: ServerV)
    requires
        map_v_wf(m),
        server_v_wf(sv),
    ensures
        map_v_wf(spec_insert(m, sv)),
{
    if !sv.addr.is_v4() {
    } else {
        let m2 = spec_insert(m, sv);
        let a = shard_key_hi(sv.addr);
        let b = shard_key_lo(sv.addr);
        let p = sv.addr.port;
        lemma_upsert_players_wf(m.players, sv.players, sv.addr);
        let canon = canon_after(m, sv);
        assert(server_v_wf(canon) && canon.addr == sv.addr) by {
            if has_server_at(m, a, b, p) {
                assert(stored_server_ok(m, a, b, p));
                lemma_merge_players_wf(server_at(m, a, b, p).players, sv.players);
            }
        }
        assert forall|a2: u16, b2: u16, p2: u16| #[trigger] has_server_at(m2, a2, b2, p2)
            implies stored_server_ok(m2, a2, b2, p2) by {
            if a2 == a && b2 == b && p2 == p {
                assert(server_at(m2, a2, b2, p2) == canon);
            } else {
                assert(has_server_at(m, a2, b2, p2) && server_at(m2, a2, b2, p2)
                    == server_at(m, a2, b2, p2)) by {
                    if a2 != a {
                    } else if b2 != b {
                        assert(m2.servers[a2][b2] == (if m.servers.contains_key(a) {
                            m.servers[a]
                        } else {
                            Map::empty()
                        })[b2]);
                    } else {
                    }
                }
            }
        }
    }
}

/// The player-table update keeps it ordered and well formed.
pub proof fn lemma_upsert_players_wf(ps: Seq<PlayerV>, qs: Seq<PlayerV>, addr: NetAddress)
    requires
        addr.is_v4(),
        players_sorted(ps),
        forall|j: int| 0 <= j < ps.len() ==> player_v_wf(#[trigger] ps[j]),
        forall|j: int| 0 <= j < qs.len() ==> player_v_wf(#[trigger] qs[j]),
    ensures
        players_sorted(upsert_players(ps, qs, addr)),
        forall|j: int| 0 <= j < upsert_players(ps, qs, addr).len()
            ==> player_v_wf(#[trigger] upsert_players(ps, qs, addr)[j]),
    decreases qs.len(),
{
    if qs.len() > 0 {
        lemma_upsert_player_wf(ps, qs[0], addr);
        assert(forall|j: int| 0 <= j < qs.drop_first().len()
            ==> #[trigger] qs.drop_first()[j] == qs[j + 1]);
        lemma_upsert_players_wf(upsert_player(ps, qs[0], addr), qs.drop_first(), addr);
    }
}

/// One player-table step keeps it ordered and well formed.
pub proof fn lemma_upsert_player_wf(ps: Seq<PlayerV>, q: PlayerV, addr: NetAddress)
    requires
        addr.is_v4(),
        players_sorted(ps),
        forall|j: int| 0 <= j < ps.len() ==> player_v_wf(#[trigger] ps[j]),
        player_v_wf(q),
    ensures
        players_sorted(upsert_player(ps, q, addr)),
        forall|j: int| 0 <= j < upsert_player(ps, q, addr).len()
            ==> player_v_wf(#[trigger] upsert_player(ps, q, addr)[j]),
{
    let r = upsert_player(ps, q, addr);
    let i = player_index_of(ps, q.name, q.id);
    lemma_player_index_of(ps, q.name, q.id);
    if i >= 0 {
        lemma_union_addrs_sorted(ps[i].servers, q.servers);
        lemma_addr_insert_sorted(union_addrs(ps[i].servers, q.servers), addr);
        lemma_union_addrs_v4(ps[i].servers, q.servers);
        lemma_addr_insert_v4(union_addrs(ps[i].servers, q.servers), addr);
        assert forall|x: int, y: int| 0 <= x < y < r.len()
            implies crate::player_entry::player_lt(r[x], r[y]) by {
            assert(crate::player_entry::player_lt(ps[x], ps[y]));
            assert(r[x].name == ps[x].name && r[x].id == ps[x].id);
            assert(r[y].name == ps[y].name && r[y].id == ps[y].id);
        }
    } else {
        let fv = PlayerV { name: q.name, id: q.id, servers: seq![addr] };
        assert(player_v_wf(fv));
        lemma_player_insert_sorted(ps, fv);
        assert forall|j: int| 0 <= j < r.len() implies player_v_wf(#[trigger] r[j]) by {
            assert(r.contains(r[j]));
            lemma_player_insert_members(ps, fv, r[j]);
            if ps.contains(r[j]) {
                let m = choose|m: int| 0 <= m < ps.len() && ps[m] == r[j];
                assert(player_v_wf(ps[m]));
            }
        }
    }
}

/// Shard routing is deterministic: a lookup right after an insert of the
/// same address returns exactly the canonical server that the insert
/// produced or merged into.
pub proof fn lemma_find_after_insert(m: ServerMapV, sv: ServerV)
    requires
        sv.addr.is_v4(),
    ensures
        spec_find(spec_insert(m, sv), sv.addr) == Some(canon_after(m, sv)),
{
}

impl Default for ServerMap {
    /// The empty index.
    fn default() -> (r: Self)
        ensures
            r@.servers == Map::<u16, Map<u16, Map<u16, ServerV>>>::empty(),
            r@.players == Seq::<PlayerV>::empty(),
            r.wf(),
    {
        Self::new()
    }
}

impl ServerMap {
    /// Read access to the canonical player table, in identity order.
    pub fn players(&self) -> (r: &Vec<Player>)
        ensures
            view_players(r@) == self@.players,
    {
        &self.player_array
    }

    /// The bytes of the player file: a varint count, then every
    /// canonical player in full form, in table order.
    pub fn players_snapshot(&self) -> (r: Vec<u8>)
        requires
            self.wf(),
        ensures
            r@ == players_file_enc(self@.players),
    {
        let ghost ps = self@.players;
        let mut out: Vec<u8> = Vec::new();
        write_varint(&mut out, self.player_array.len() as u64);
        let mut i: usize = 0;
        proof {
            assert(ps.take(0) =~= Seq::empty());
            assert(out@ =~= spec_varint(ps.len()) + cat_player_fulls(Seq::empty()));
        }
        while i < self.player_array.len()
            invariant
                i <= self.player_array.len(),
                self.wf(),
                ps == self@.players,
                out@ == spec_varint(ps.len()) + cat_player_fulls(ps.take(i as int)),
            decreases self.player_array.len() - i,
        {
            proof {
                assert(ps.take(i + 1) =~= ps.take(i as int) + seq![ps[i as int]]);
                lemma_cat_player_fulls_append(ps.take(i as int), seq![ps[i as int]]);
                assert(cat_player_fulls(seq![ps[i as int]])
                    =~= player_full_enc(ps[i as int])) by {
                    assert(seq![ps[i as int]].drop_first() =~= Seq::<PlayerV>::empty());
                    assert(cat_player_fulls(Seq::<PlayerV>::empty()) == Seq::<u8>::empty());
                }
                assert(ps[i as int] == self.player_array@[i as int]@);
                assert(player_v_wf(ps[i as int]));
            }
            let mut pb = self.player_array[i].serialize();
            out.append(&mut pb);
            proof {
                assert(out@ =~= spec_varint(ps.len()) + cat_player_fulls(ps.take(i + 1)));
            }
            i = i + 1;
        }
        proof {
            assert(ps.take(ps.len() as int) =~= ps);
        }
        out
    }

    /// The first-level shards in use, in ascending order; the snapshot
    /// writes one server file per entry.
    pub fn shard_list(&self) -> (r: Vec<u16>)
        ensures
            forall|i: int, j: int| 0 <= i < j < r@.len() ==> r@[i] < r@[j],
            forall|k: u16| r@.contains(k) <==> self@.servers.contains_key(k),
    {
        let mut out: Vec<u16> = Vec::new();
        let mut k: u32 = 0;
        while k < 65536
            invariant
                k <= 65536,
                forall|i: int, j: int| 0 <= i < j < out@.len() ==> out@[i] < out@[j],
                forall|i: int| 0 <= i < out@.len() ==> (#[trigger] out@[i]) < k,
                forall|x: u16| out@.contains(x)
                    <==> (self@.servers.contains_key(x) && (x as u32) < k),
            decreases 65536 - k,
        {
            let ghost out0 = out@;
            if self.server_array.contains_key(&(k as u16)) {
                out.push(k as u16);
                proof {
                    assert forall|x: u16| out@.contains(x)
                        implies (self@.servers.contains_key(x) && (x as u32) < k + 1) by {
                        let i = choose|i: int| 0 <= i < out@.len() && out@[i] == x;
                        if i < out0.len() {
                            assert(out0[i] == x);
                            assert(out0.contains(x));
                        }
                    }
                    assert forall|x: u16| self@.servers.contains_key(x) && (x as u32) < k + 1
                        implies out@.contains(x) by {
                        if (x as u32) < k {
                            assert(out0.contains(x));
                            let i = choose|i: int| 0 <= i < out0.len() && out0[i] == x;
                            assert(out@[i] == x);
                        } else {
                            assert(out@[out0.len() as int] == x);
                        }
                    }
                }
            } else {
                proof {
                    assert forall|x: u16| out@.contains(x)
                        implies (self@.servers.contains_key(x) && (x as u32) < k + 1) by {
                    }
                }
            }
            k = k + 1;
        }
        out
    }

    /// The bytes of one shard file: a varint count of the servers stored
    /// under the given first-level shard, then each of them in full form,
    /// ascending by second key and port.
    #[verifier::loop_isolation(false)]
    #[verifier::rlimit(100)]
    pub fn shard_snapshot(&self, shard: u16) -> (r: Vec<u8>)
        requires
            self.wf(),
        ensures
            r@ == shard_file_enc(self@, shard),
    {
        let mut body: Vec<u8> = Vec::new();
        let mut count: u64 = 0;
        match self.server_array.get(&shard) {
            None => {
                let mut out: Vec<u8> = Vec::new();
                write_varint(&mut out, 0);
                proof {
                    assert(shard_servers(self@, shard) =~= Seq::empty());
                    assert(cat_server_fulls(Seq::empty()) == Seq::<u8>::empty());
                    assert(out@ =~= shard_file_enc(self@, shard));
                }
                out
            },
            Some(mid) => {
                let ghost midv = view_mid(mid@);
                proof {
                    assert(midv == self@.servers[shard]);
                }
                let mut b: u32 = 0;
                while b < 65536
                    invariant
                        b <= 65536,
                        body@ == cat_server_fulls(mid_servers_upto(midv, b as int)),
                        count == mid_servers_upto(midv, b as int).len(),
                    decreases 65536 - b,
                {
                    proof {
                        lemma_mid_servers_upto_len(midv, b as int);
                    }
                    match mid.get(&(b as u16)) {
                        None => {
                            proof {
                                assert(mid_servers_upto(midv, b + 1)
                                    =~= mid_servers_upto(midv, b as int));
                            }
                        },
                        Some(leaf) => {
                            let ghost leafv = view_leaf(leaf@);
                            proof {
                                assert(leafv == midv[b as u16]);
                            }
                            let mut p: u32 = 0;
                            while p < 65536
                                invariant
                                    p <= 65536,
                                    body@ == cat_server_fulls(mid_servers_upto(midv, b as int)
                                        + leaf_servers_upto(leafv, p as int)),
                                    count == mid_servers_upto(midv, b as int).len()
                                        + leaf_servers_upto(leafv, p as int).len(),
                                decreases 65536 - p,
                            {
                                proof {
                                    lemma_mid_servers_upto_len(midv, b as int);
                                    lemma_leaf_servers_upto_len(leafv, p as int);
                                }
                                match leaf.get(&(p as u16)) {
                                    None => {
                                        proof {
                                            assert(leaf_servers_upto(leafv, p + 1)
                                                =~= leaf_servers_upto(leafv, p as int));
                                        }
                                    },
                                    Some(s) => {
                                        proof {
                                            assert(s@ == leafv[p as u16]);
                                            assert(has_server_at(self@, shard, b as u16,
                                                p as u16));
                                            assert(stored_server_ok(self@, shard, b as u16,
                                                p as u16));
                                            assert(server_at(self@, shard, b as u16, p as u16)
                                                == s@);
                                        }
                                        let mut sb = s.serialize();
                                        body.append(&mut sb);
                                        count = count + 1;
                                        proof {
                                            let pre = mid_servers_upto(midv, b as int)
                                                + leaf_servers_upto(leafv, p as int);
                                            assert(mid_servers_upto(midv, b as int)
                                                + leaf_servers_upto(leafv, p + 1)
                                                =~= pre + seq![leafv[p as u16]]);
                                            lemma_cat_server_fulls_append(pre,
                                                seq![leafv[p as u16]]);
                                            assert(cat_server_fulls(seq![leafv[p as u16]])
                                                =~= server_full_enc(leafv[p as u16])) by {
                                                assert(seq![leafv[p as u16]].drop_first()
                                                    =~= Seq::<ServerV>::empty());
                                                assert(cat_server_fulls(Seq::<ServerV>::empty())
                                                    == Seq::<u8>::empty());
                                            }
                                            assert(body@ =~= cat_server_fulls(
                                                mid_servers_upto(midv, b as int)
                                                    + leaf_servers_upto(leafv, p + 1)));
                                        }
                                    },
                                }
                                p = p + 1;
                            }
                            proof {
                                assert(mid_servers_upto(midv, b + 1)
                                    =~= mid_servers_upto(midv, b as int)
                                        + leaf_servers_upto(leafv, 65536));
                            }
                        },
                    }
                    proof {
                        if !mid@.contains_key(b as u16) {
                            assert(mid_servers_upto(midv, b + 1)
                                =~= mid_servers_upto(midv, b as int));
                        }
                    }
                    b = b + 1;
                }
                proof {
                    assert(mid_servers_upto(midv, 65536) == shard_servers(self@, shard));
                }
                let mut out: Vec<u8> = Vec::new();
                write_varint(&mut out, count);
                out.append(&mut body);
                proof {
                    assert(out@ =~= shard_file_enc(self@, shard));
                }
                out
            },
        }
    }
}

} // verus!
