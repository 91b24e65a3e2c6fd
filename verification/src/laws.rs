//! The laws of the index. An observation is a server record whose
//! attached players carry no relations of their own yet, as the ingestion
//! path builds them. Inserting the same observation twice leaves the index
//! exactly as one insert does, and the Server/Player relation stays
//! symmetric under any sequence of such inserts.
use vstd::prelude::*;
use crate::net::{NetAddress, addr_insert, addrs_sorted, union_addrs, lemma_addr_insert_sorted,
    lemma_addr_insert_members, lemma_union_addrs_members};
use crate::player_entry::{PlayerV, player_v_wf, players_sorted, player_insert, player_merge,
    merge_one_player, merge_players, player_index_of, player_lt, same_key,
    lemma_player_index_of, lemma_bytes_lt_asym};
use crate::server_entry::{ServerV, server_v_wf};
use crate::server_map::{ServerMapV, map_v_wf, stored_server_ok, upsert_player, upsert_players,
    canon_after, spec_insert, has_server_at, server_at, lemma_upsert_players_wf,
    lemma_upsert_player_wf};

verus! {

/// The shape in which observations reach the index: each attached player
/// knows its identity but no servers yet; the index itself supplies the
/// back reference.
pub open spec fn observation_shaped(sv: ServerV) -> bool {
    forall|k: int| 0 <= k < sv.players.len()
        ==> (#[trigger] sv.players[k]).servers.len() == 0
}

/// No identity sorts below itself.
proof fn lemma_player_lt_irrefl(p: PlayerV, q: PlayerV)
    requires
        same_key(p, q),
    ensures
        !player_lt(p, q),
{
    lemma_bytes_lt_asym(p.name, q.name);
}

/// In an identity-ordered list, a member's position is exactly where the
/// search finds its identity.
pub proof fn lemma_sorted_index_of(s: Seq<PlayerV>, k: int)
    requires
        players_sorted(s),
        0 <= k < s.len(),
    ensures
        player_index_of(s, s[k].name, s[k].id) == k,
{
    lemma_player_index_of(s, s[k].name, s[k].id);
    let io = player_index_of(s, s[k].name, s[k].id);
    if io < 0 {
        assert(s[k].name == s[k].name && s[k].id == s[k].id);
        assert(false);
    }
    if io < k {
        assert(player_lt(s[io], s[k]));
        lemma_player_lt_irrefl(s[io], s[k]);
        assert(false);
    }
    if io > k {
        assert(!(s[k].name == s[k].name && s[k].id == s[k].id));
        assert(false);
    }
}

/// Replacing a record by one of the same identity moves no position that
/// any identity search finds.
proof fn lemma_index_of_update_same_key(s: Seq<PlayerV>, i: int, x: PlayerV, name: Seq<u8>,
    id: u128)
    requires
        0 <= i < s.len(),
        same_key(x, s[i]),
    ensures
        player_index_of(s.update(i, x), name, id) == player_index_of(s, name, id),
{
    let r = s.update(i, x);
    lemma_player_index_of(s, name, id);
    lemma_player_index_of(r, name, id);
    let io = player_index_of(s, name, id);
    let io2 = player_index_of(r, name, id);
    assert(forall|j: int| 0 <= j < s.len()
        ==> (#[trigger] r[j]).name == s[j].name && r[j].id == s[j].id);
    if io < 0 {
        if io2 >= 0 {
            assert(s[io2].name == name && s[io2].id == id);
            assert(false);
        }
    } else {
        if io2 < 0 {
            assert(!(r[io].name == name && r[io].id == id));
            assert(false);
        }
        if io2 < io {
            assert(s[io2].name == name && s[io2].id == id);
            assert(false);
        }
        if io < io2 {
            assert(r[io].name == name && r[io].id == id);
            assert(false);
        }
    }
}

/// Inserting a record of another identity keeps an identity's record: it
/// is still found, unchanged, and an absent identity stays absent.
proof fn lemma_insert_keeps_entry(s: Seq<PlayerV>, x: PlayerV, name: Seq<u8>, id: u128)
    requires
        !(x.name == name && x.id == id),
    ensures
        ({
            let io = player_index_of(s, name, id);
            let r = player_insert(s, x);
            let io2 = player_index_of(r, name, id);
            &&& io >= 0 ==> io2 >= 0 && r[io2] == s[io]
            &&& io < 0 ==> io2 < 0
        }),
    decreases s.len(),
{
    let io = player_index_of(s, name, id);
    let r = player_insert(s, x);
    lemma_player_index_of(s, name, id);
    if s.len() == 0 {
        assert(r == seq![x]);
        lemma_player_index_of(r, name, id);
        if player_index_of(r, name, id) >= 0 {
            assert(r[player_index_of(r, name, id)] == x);
            assert(false);
        }
    } else if player_lt(s[0], x) {
        let t = s.drop_first();
        assert(r == seq![s[0]] + player_insert(t, x));
        lemma_insert_keeps_entry(t, x, name, id);
        assert(r.drop_first() =~= player_insert(t, x));
        assert(r[0] == s[0]);
        if s[0].name == name && s[0].id == id {
            assert(io == 0);
            assert(player_index_of(r, name, id) == 0);
        } else {
            if io >= 0 {
                assert(s[io] == t[io - 1]);
                lemma_player_index_of(player_insert(t, x), name, id);
                let iot = player_index_of(player_insert(t, x), name, id);
                assert(player_index_of(r, name, id) == iot + 1);
                assert(r[iot + 1] == player_insert(t, x)[iot]);
            } else {
                assert(player_index_of(t, name, id) < 0);
            }
        }
    } else if same_key(s[0], x) {
    } else {
        assert(r == seq![x] + s);
        assert(r[0] == x);
        assert(!(r[0].name == name && r[0].id == id));
        assert(r.drop_first() =~= s);
        if io >= 0 {
            assert(r[io + 1] == s[io]);
        }
    }
}

/// Inserting a record of an absent identity makes it findable, as given.
proof fn lemma_insert_self_found(s: Seq<PlayerV>, x: PlayerV)
    requires
        player_index_of(s, x.name, x.id) < 0,
    ensures
        ({
            let r = player_insert(s, x);
            let io = player_index_of(r, x.name, x.id);
            io >= 0 && r[io] == x
        }),
    decreases s.len(),
{
    let r = player_insert(s, x);
    lemma_player_index_of(s, x.name, x.id);
    if s.len() == 0 {
        assert(r == seq![x]);
        assert(r[0] == x);
    } else if player_lt(s[0], x) {
        let t = s.drop_first();
        assert(player_index_of(t, x.name, x.id) < 0) by {
            if player_index_of(t, x.name, x.id) >= 0 {
                assert(player_index_of(s, x.name, x.id) >= 0);
            }
        }
        lemma_insert_self_found(t, x);
        assert(r == seq![s[0]] + player_insert(t, x));
        assert(r.drop_first() =~= player_insert(t, x));
        assert(r[0] == s[0]);
        assert(!(r[0].name == x.name && r[0].id == x.id)) by {
            if s[0].name == x.name && s[0].id == x.id {
                assert(player_index_of(s, x.name, x.id) == 0);
            }
        }
        lemma_player_index_of(player_insert(t, x), x.name, x.id);
        let iot = player_index_of(player_insert(t, x), x.name, x.id);
        assert(player_index_of(r, x.name, x.id) == iot + 1);
        assert(r[iot + 1] == player_insert(t, x)[iot]);
    } else if same_key(s[0], x) {
        assert(player_index_of(s, x.name, x.id) == 0);
        assert(false);
    } else {
        assert(r == seq![x] + s);
        assert(r[0] == x);
    }
}

/// The table knows this identity and relates it to the given address.
pub open spec fn table_has(ps: Seq<PlayerV>, q: PlayerV, addr: NetAddress) -> bool {
    let i = player_index_of(ps, q.name, q.id);
    i >= 0 && ps[i].servers.contains(addr)
}

/// One table update relates the given player to the given address.
proof fn lemma_upsert_gives(ps: Seq<PlayerV>, q: PlayerV, addr: NetAddress)
    ensures
        table_has(upsert_player(ps, q, addr), q, addr),
{
    let r = upsert_player(ps, q, addr);
    let i = player_index_of(ps, q.name, q.id);
    lemma_player_index_of(ps, q.name, q.id);
    if i >= 0 {
        let merged = player_merge(ps[i], q);
        let entry = PlayerV { name: merged.name, id: merged.id,
            servers: addr_insert(merged.servers, addr) };
        lemma_index_of_update_same_key(ps, i, entry, q.name, q.id);
        assert(r[i] == entry);
        lemma_addr_insert_members(merged.servers, addr, addr);
    } else {
        let fv = PlayerV { name: q.name, id: q.id, servers: seq![addr] };
        lemma_insert_self_found(ps, fv);
        let io2 = player_index_of(r, q.name, q.id);
        assert(r[io2] == fv);
        assert(fv.servers.contains(addr)) by {
            assert(fv.servers[0] == addr);
        }
    }
}

/// A table update for one player does not unrelate any other.
proof fn lemma_upsert_keeps(ps: Seq<PlayerV>, q2: PlayerV, q: PlayerV, addr: NetAddress)
    requires
        table_has(ps, q, addr),
    ensures
        table_has(upsert_player(ps, q2, addr), q, addr),
{
    let r = upsert_player(ps, q2, addr);
    let i = player_index_of(ps, q.name, q.id);
    let i2 = player_index_of(ps, q2.name, q2.id);
    lemma_player_index_of(ps, q.name, q.id);
    lemma_player_index_of(ps, q2.name, q2.id);
    if i2 >= 0 {
        let merged = player_merge(ps[i2], q2);
        let entry = PlayerV { name: merged.name, id: merged.id,
            servers: addr_insert(merged.servers, addr) };
        lemma_index_of_update_same_key(ps, i2, entry, q.name, q.id);
        assert(player_index_of(r, q.name, q.id) == i);
        if i == i2 {
            assert(r[i] == entry);
            lemma_addr_insert_members(merged.servers, addr, addr);
        } else {
            assert(r[i] == ps[i]);
        }
    } else {
        let fv = PlayerV { name: q2.name, id: q2.id, servers: seq![addr] };
        assert(!(fv.name == q.name && fv.id == q.id)) by {
            if fv.name == q.name && fv.id == q.id {
                assert(ps[i].name == q2.name && ps[i].id == q2.id);
            }
        }
        lemma_insert_keeps_entry(ps, fv, q.name, q.id);
    }
}

/// After a whole observation is folded in, the table relates every player
/// it carried to the observed address.
proof fn lemma_fold_gives(ps: Seq<PlayerV>, qs: Seq<PlayerV>, addr: NetAddress)
    ensures
        forall|k: int| 0 <= k < qs.len()
            ==> table_has(upsert_players(ps, qs, addr), #[trigger] qs[k], addr),
    decreases qs.len(),
{
    if qs.len() > 0 {
        let ps1 = upsert_player(ps, qs[0], addr);
        lemma_fold_gives(ps1, qs.drop_first(), addr);
        assert(forall|k: int| 0 <= k < qs.drop_first().len()
            ==> #[trigger] qs.drop_first()[k] == qs[k + 1]);
        lemma_upsert_gives(ps, qs[0], addr);
        lemma_fold_keeps(ps1, qs.drop_first(), qs[0], addr);
        assert forall|k: int| 0 <= k < qs.len()
            implies table_has(upsert_players(ps, qs, addr), qs[k], addr) by {
            if k > 0 {
                assert(qs.drop_first()[k - 1] == qs[k]);
                assert(table_has(upsert_players(ps1, qs.drop_first(), addr),
                    qs.drop_first()[k - 1], addr));
            }
        }
    }
}

/// Folding further players in keeps every established relation.
proof fn lemma_fold_keeps(ps: Seq<PlayerV>, qs: Seq<PlayerV>, q: PlayerV, addr: NetAddress)
    requires
        table_has(ps, q, addr),
    ensures
        table_has(upsert_players(ps, qs, addr), q, addr),
    decreases qs.len(),
{
    if qs.len() > 0 {
        lemma_upsert_keeps(ps, qs[0], q, addr);
        lemma_fold_keeps(upsert_player(ps, qs[0], addr), qs.drop_first(), q, addr);
    }
}

/// A table update for a relation the table already has changes nothing.
proof fn lemma_upsert_noop(ps: Seq<PlayerV>, q: PlayerV, addr: NetAddress)
    requires
        players_sorted(ps),
        forall|j: int| 0 <= j < ps.len() ==> player_v_wf(#[trigger] ps[j]),
        table_has(ps, q, addr),
        q.servers.len() == 0,
    ensures
        upsert_player(ps, q, addr) == ps,
{
    let i = player_index_of(ps, q.name, q.id);
    lemma_player_index_of(ps, q.name, q.id);
    let merged = player_merge(ps[i], q);
    assert(q.servers =~= Seq::<NetAddress>::empty());
    assert(union_addrs(ps[i].servers, Seq::empty()) == ps[i].servers);
    assert(merged.servers == ps[i].servers);
    lemma_addr_insert_sorted(ps[i].servers, addr);
    assert(addr_insert(merged.servers, addr) == ps[i].servers);
    let entry = PlayerV { name: merged.name, id: merged.id,
        servers: addr_insert(merged.servers, addr) };
    assert(entry =~= ps[i]);
    assert(ps.update(i, entry) =~= ps);
}

/// Folding in an observation whose relations the table already has
/// changes nothing.
proof fn lemma_fold_noop(ps: Seq<PlayerV>, qs: Seq<PlayerV>, addr: NetAddress)
    requires
        players_sorted(ps),
        forall|j: int| 0 <= j < ps.len() ==> player_v_wf(#[trigger] ps[j]),
        forall|k: int| 0 <= k < qs.len() ==> table_has(ps, #[trigger] qs[k], addr),
        forall|k: int| 0 <= k < qs.len() ==> (#[trigger] qs[k]).servers.len() == 0,
    ensures
        upsert_players(ps, qs, addr) == ps,
    decreases qs.len(),
{
    if qs.len() > 0 {
        lemma_upsert_noop(ps, qs[0], addr);
        assert(forall|k: int| 0 <= k < qs.drop_first().len()
            ==> #[trigger] qs.drop_first()[k] == qs[k + 1]);
        lemma_fold_noop(ps, qs.drop_first(), addr);
    }
}

/// The relation list knows this identity.
pub open spec fn list_has(ps: Seq<PlayerV>, q: PlayerV) -> bool {
    player_index_of(ps, q.name, q.id) >= 0
}

/// One merge step puts the given player's identity on the list.
proof fn lemma_merge_one_gives(ps: Seq<PlayerV>, q: PlayerV)
    ensures
        list_has(merge_one_player(ps, q), q),
{
    let i = player_index_of(ps, q.name, q.id);
    lemma_player_index_of(ps, q.name, q.id);
    if i >= 0 {
        lemma_index_of_update_same_key(ps, i, player_merge(ps[i], q), q.name, q.id);
    } else {
        lemma_insert_self_found(ps, q);
    }
}

/// A merge step for one player keeps every identity already on the list.
proof fn lemma_merge_one_keeps(ps: Seq<PlayerV>, q2: PlayerV, q: PlayerV)
    requires
        list_has(ps, q),
    ensures
        list_has(merge_one_player(ps, q2), q),
{
    let i = player_index_of(ps, q.name, q.id);
    let i2 = player_index_of(ps, q2.name, q2.id);
    lemma_player_index_of(ps, q.name, q.id);
    lemma_player_index_of(ps, q2.name, q2.id);
    if i2 >= 0 {
        lemma_index_of_update_same_key(ps, i2, player_merge(ps[i2], q2), q.name, q.id);
    } else {
        assert(!(q2.name == q.name && q2.id == q.id)) by {
            if q2.name == q.name && q2.id == q.id {
                assert(ps[i].name == q2.name && ps[i].id == q2.id);
            }
        }
        lemma_insert_keeps_entry(ps, q2, q.name, q.id);
    }
}

/// After a merge, every incoming identity is on the list.
proof fn lemma_merge_fold_gives(ps: Seq<PlayerV>, qs: Seq<PlayerV>)
    ensures
        forall|k: int| 0 <= k < qs.len()
            ==> list_has(merge_players(ps, qs), #[trigger] qs[k]),
    decreases qs.len(),
{
    if qs.len() > 0 {
        let ps1 = merge_one_player(ps, qs[0]);
        lemma_merge_fold_gives(ps1, qs.drop_first());
        assert(forall|k: int| 0 <= k < qs.drop_first().len()
            ==> #[trigger] qs.drop_first()[k] == qs[k + 1]);
        lemma_merge_one_gives(ps, qs[0]);
        lemma_merge_fold_keeps(ps1, qs.drop_first(), qs[0]);
        assert forall|k: int| 0 <= k < qs.len()
            implies list_has(merge_players(ps, qs), qs[k]) by {
            if k > 0 {
                assert(qs.drop_first()[k - 1] == qs[k]);
                assert(list_has(merge_players(ps1, qs.drop_first()), qs.drop_first()[k - 1]));
            }
        }
    }
}

/// Merging further players keeps every identity already on the list.
proof fn lemma_merge_fold_keeps(ps: Seq<PlayerV>, qs: Seq<PlayerV>, q: PlayerV)
    requires
        list_has(ps, q),
    ensures
        list_has(merge_players(ps, qs), q),
    decreases qs.len(),
{
    if qs.len() > 0 {
        lemma_merge_one_keeps(ps, qs[0], q);
        lemma_merge_fold_keeps(merge_one_player(ps, qs[0]), qs.drop_first(), q);
    }
}

/// Merging in a relation-free player whose identity is already on the
/// list changes nothing.
proof fn lemma_merge_one_noop(ps: Seq<PlayerV>, q: PlayerV)
    requires
        list_has(ps, q),
        q.servers.len() == 0,
    ensures
        merge_one_player(ps, q) == ps,
{
    let i = player_index_of(ps, q.name, q.id);
    lemma_player_index_of(ps, q.name, q.id);
    assert(q.servers =~= Seq::<NetAddress>::empty());
    assert(union_addrs(ps[i].servers, Seq::empty()) == ps[i].servers);
    assert(player_merge(ps[i], q) =~= ps[i]);
    assert(ps.update(i, ps[i]) =~= ps);
}

/// Merging an observation whose identities are all on the list changes
/// nothing.
proof fn lemma_merge_fold_noop(ps: Seq<PlayerV>, qs: Seq<PlayerV>)
    requires
        forall|k: int| 0 <= k < qs.len() ==> list_has(ps, #[trigger] qs[k]),
        forall|k: int| 0 <= k < qs.len() ==> (#[trigger] qs[k]).servers.len() == 0,
    ensures
        merge_players(ps, qs) == ps,
    decreases qs.len(),
{
    if qs.len() > 0 {
        lemma_merge_one_noop(ps, qs[0]);
        assert(forall|k: int| 0 <= k < qs.drop_first().len()
            ==> #[trigger] qs.drop_first()[k] == qs[k + 1]);
        lemma_merge_fold_noop(ps, qs.drop_first());
    }
}

/// A table update never unrelates anyone from any address.
proof fn lemma_upsert_keeps_any(ps: Seq<PlayerV>, q2: PlayerV, q: PlayerV, addr: NetAddress,
    x: NetAddress)
    requires
        forall|j: int| 0 <= j < ps.len() ==> player_v_wf(#[trigger] ps[j]),
        table_has(ps, q, x),
    ensures
        table_has(upsert_player(ps, q2, addr), q, x),
{
    let r = upsert_player(ps, q2, addr);
    let i = player_index_of(ps, q.name, q.id);
    let i2 = player_index_of(ps, q2.name, q2.id);
    lemma_player_index_of(ps, q.name, q.id);
    lemma_player_index_of(ps, q2.name, q2.id);
    if i2 >= 0 {
        let merged = player_merge(ps[i2], q2);
        let entry = PlayerV { name: merged.name, id: merged.id,
            servers: addr_insert(merged.servers, addr) };
        lemma_index_of_update_same_key(ps, i2, entry, q.name, q.id);
        if i == i2 {
            assert(r[i] == entry);
            lemma_union_addrs_members(ps[i2].servers, q2.servers, x);
            lemma_addr_insert_members(merged.servers, addr, x);
        } else {
            assert(r[i] == ps[i]);
        }
    } else {
        let fv = PlayerV { name: q2.name, id: q2.id, servers: seq![addr] };
        assert(!(fv.name == q.name && fv.id == q.id)) by {
            if fv.name == q.name && fv.id == q.id {
                assert(ps[i].name == q2.name && ps[i].id == q2.id);
            }
        }
        lemma_insert_keeps_entry(ps, fv, q.name, q.id);
    }
}

/// Folding an observation in never unrelates anyone from any address.
proof fn lemma_fold_keeps_any(ps: Seq<PlayerV>, qs: Seq<PlayerV>, addr: NetAddress, q: PlayerV,
    x: NetAddress)
    requires
        addr.is_v4(),
        players_sorted(ps),
        forall|j: int| 0 <= j < ps.len() ==> player_v_wf(#[trigger] ps[j]),
        forall|k: int| 0 <= k < qs.len() ==> player_v_wf(#[trigger] qs[k]),
        table_has(ps, q, x),
    ensures
        table_has(upsert_players(ps, qs, addr), q, x),
    decreases qs.len(),
{
    if qs.len() > 0 {
        lemma_upsert_keeps_any(ps, qs[0], q, addr, x);
        lemma_upsert_player_wf(ps, qs[0], addr);
        assert(forall|k: int| 0 <= k < qs.drop_first().len()
            ==> #[trigger] qs.drop_first()[k] == qs[k + 1]);
        lemma_fold_keeps_any(upsert_player(ps, qs[0], addr), qs.drop_first(), addr, q, x);
    }
}

/// Where one new-table record can come from: an old record left alone, an
/// old record related to the observed address on top of what it had, or a
/// fresh record of an observed identity knowing that address alone.
pub open spec fn entry_from(ps: Seq<PlayerV>, qs: Seq<PlayerV>, addr: NetAddress,
    e: PlayerV) -> bool {
    let i = player_index_of(ps, e.name, e.id);
    ||| (i >= 0 && e.servers == ps[i].servers)
    ||| (i >= 0 && e.servers == addr_insert(ps[i].servers, addr) && list_has(qs, e))
    ||| (i < 0 && e.servers == seq![addr] && list_has(qs, e))
}

/// The identities of one list are all on another.
pub open spec fn keys_on(ps: Seq<PlayerV>, ps2: Seq<PlayerV>) -> bool {
    forall|j: int| 0 <= j < ps.len() ==> list_has(ps2, #[trigger] ps[j])
}

/// The shape of the table along the fold of an observation: every record
/// traces back to `entry_from`, and no old identity is lost.
proof fn lemma_fold_shape(ps0: Seq<PlayerV>, cur: Seq<PlayerV>, qs_all: Seq<PlayerV>,
    qs: Seq<PlayerV>, addr: NetAddress)
    requires
        players_sorted(ps0),
        forall|j: int| 0 <= j < ps0.len() ==> player_v_wf(#[trigger] ps0[j]),
        forall|j: int| 0 <= j < cur.len() ==> entry_from(ps0, qs_all, addr, #[trigger] cur[j]),
        keys_on(ps0, cur),
        forall|k: int| 0 <= k < qs.len() ==> list_has(qs_all, #[trigger] qs[k]),
        forall|k: int| 0 <= k < qs.len() ==> (#[trigger] qs[k]).servers.len() == 0,
    ensures
        forall|j: int| 0 <= j < upsert_players(cur, qs, addr).len()
            ==> entry_from(ps0, qs_all, addr, #[trigger] upsert_players(cur, qs, addr)[j]),
        keys_on(ps0, upsert_players(cur, qs, addr)),
    decreases qs.len(),
{
    if qs.len() > 0 {
        let q = qs[0];
        let nxt = upsert_player(cur, q, addr);
        lemma_upsert_shape(ps0, cur, qs_all, q, addr);
        assert(forall|k: int| 0 <= k < qs.drop_first().len()
            ==> #[trigger] qs.drop_first()[k] == qs[k + 1]);
        lemma_fold_shape(ps0, nxt, qs_all, qs.drop_first(), addr);
    }
}

/// One fold step keeps the table's shape.
proof fn lemma_upsert_shape(ps0: Seq<PlayerV>, cur: Seq<PlayerV>, qs_all: Seq<PlayerV>,
    q: PlayerV, addr: NetAddress)
    requires
        players_sorted(ps0),
        forall|j: int| 0 <= j < ps0.len() ==> player_v_wf(#[trigger] ps0[j]),
        forall|j: int| 0 <= j < cur.len() ==> entry_from(ps0, qs_all, addr, #[trigger] cur[j]),
        keys_on(ps0, cur),
        list_has(qs_all, q),
        q.servers.len() == 0,
    ensures
        forall|j: int| 0 <= j < upsert_player(cur, q, addr).len()
            ==> entry_from(ps0, qs_all, addr, #[trigger] upsert_player(cur, q, addr)[j]),
        keys_on(ps0, upsert_player(cur, q, addr)),
{
    let r = upsert_player(cur, q, addr);
    let i = player_index_of(cur, q.name, q.id);
    lemma_player_index_of(cur, q.name, q.id);
    if i >= 0 {
        let merged = player_merge(cur[i], q);
        assert(q.servers =~= Seq::<NetAddress>::empty());
        assert(merged.servers == cur[i].servers);
        let entry = PlayerV { name: merged.name, id: merged.id,
            servers: addr_insert(cur[i].servers, addr) };
        assert(r == cur.update(i, entry));
        assert(entry_from(ps0, qs_all, addr, entry)) by {
            let i0 = player_index_of(ps0, entry.name, entry.id);
            lemma_player_index_of(ps0, entry.name, entry.id);
            if i0 >= 0 {
                assert(player_v_wf(ps0[i0]));
            }
            assert(entry_from(ps0, qs_all, addr, cur[i]));
            assert(list_has(qs_all, entry)) by {
                lemma_player_index_of(qs_all, q.name, q.id);
            }
            if i0 >= 0 && cur[i].servers == ps0[i0].servers {
            } else if i0 >= 0 && cur[i].servers == addr_insert(ps0[i0].servers, addr) {
                lemma_addr_insert_sorted(ps0[i0].servers, addr);
                lemma_addr_insert_members(ps0[i0].servers, addr, addr);
                lemma_addr_insert_sorted(addr_insert(ps0[i0].servers, addr), addr);
                assert(entry.servers == addr_insert(ps0[i0].servers, addr));
            } else {
                assert(cur[i].servers == seq![addr]);
                assert(addrs_sorted(seq![addr]));
                assert(seq![addr].contains(addr)) by {
                    assert(seq![addr][0] == addr);
                }
                lemma_addr_insert_sorted(seq![addr], addr);
                assert(entry.servers == seq![addr]);
            }
        }
        assert forall|j: int| 0 <= j < r.len()
            implies entry_from(ps0, qs_all, addr, #[trigger] r[j]) by {
            if j != i {
                assert(r[j] == cur[j]);
            }
        }
        assert forall|j: int| 0 <= j < ps0.len() implies list_has(r, #[trigger] ps0[j]) by {
            lemma_index_of_update_same_key(cur, i, entry, ps0[j].name, ps0[j].id);
        }
    } else {
        let fv = PlayerV { name: q.name, id: q.id, servers: seq![addr] };
        assert(r == player_insert(cur, fv));
        lemma_insert_self_found(cur, fv);
        assert(entry_from(ps0, qs_all, addr, fv)) by {
            let i0 = player_index_of(ps0, fv.name, fv.id);
            lemma_player_index_of(ps0, fv.name, fv.id);
            if i0 >= 0 {
                assert(list_has(cur, ps0[i0]));
                let ic = player_index_of(cur, ps0[i0].name, ps0[i0].id);
                assert(ic == i) by {
                    lemma_player_index_of(cur, ps0[i0].name, ps0[i0].id);
                }
                assert(false);
            }
            assert(list_has(qs_all, fv)) by {
                lemma_player_index_of(qs_all, q.name, q.id);
            }
        }
        assert forall|j: int| 0 <= j < r.len()
            implies entry_from(ps0, qs_all, addr, #[trigger] r[j]) by {
            assert(r.contains(r[j]));
            crate::player_entry::lemma_player_insert_members(cur, fv, r[j]);
            if cur.contains(r[j]) {
                let jc = choose|jc: int| 0 <= jc < cur.len() && cur[jc] == r[j];
                assert(entry_from(ps0, qs_all, addr, cur[jc]));
            }
        }
        assert forall|j: int| 0 <= j < ps0.len() implies list_has(r, #[trigger] ps0[j]) by {
            assert(!(fv.name == ps0[j].name && fv.id == ps0[j].id)) by {
                if fv.name == ps0[j].name && fv.id == ps0[j].id {
                    assert(list_has(cur, ps0[j]));
                    lemma_player_index_of(cur, ps0[j].name, ps0[j].id);
                    assert(false);
                }
            }
            lemma_insert_keeps_entry(cur, fv, ps0[j].name, ps0[j].id);
        }
    }
}

/// Every identity on a merged relation list came from one of its sides.
proof fn lemma_merge_keys_origin(ps: Seq<PlayerV>, cur: Seq<PlayerV>, qs_all: Seq<PlayerV>,
    qs: Seq<PlayerV>)
    requires
        forall|j: int| 0 <= j < cur.len()
            ==> list_has(ps, #[trigger] cur[j]) || list_has(qs_all, cur[j]),
        forall|k: int| 0 <= k < qs.len() ==> list_has(qs_all, #[trigger] qs[k]),
    ensures
        forall|j: int| 0 <= j < merge_players(cur, qs).len()
            ==> list_has(ps, #[trigger] merge_players(cur, qs)[j])
                || list_has(qs_all, merge_players(cur, qs)[j]),
    decreases qs.len(),
{
    if qs.len() == 0 {
        assert(merge_players(cur, qs) == cur);
    } else {
        let q = qs[0];
        let nxt = merge_one_player(cur, q);
        let i = player_index_of(cur, q.name, q.id);
        lemma_player_index_of(cur, q.name, q.id);
        assert forall|j: int| 0 <= j < nxt.len()
            implies list_has(ps, #[trigger] nxt[j]) || list_has(qs_all, nxt[j]) by {
            if i >= 0 {
                assert(nxt == cur.update(i, player_merge(cur[i], q)));
                if j == i {
                    assert(nxt[j].name == cur[i].name && nxt[j].id == cur[i].id);
                } else {
                    assert(nxt[j] == cur[j]);
                }
            } else {
                assert(nxt == player_insert(cur, q));
                assert(nxt.contains(nxt[j]));
                crate::player_entry::lemma_player_insert_members(cur, q, nxt[j]);
                if cur.contains(nxt[j]) {
                    let jc = choose|jc: int| 0 <= jc < cur.len() && cur[jc] == nxt[j];
                    assert(list_has(ps, cur[jc]) || list_has(qs_all, cur[jc]));
                } else {
                    assert(nxt[j] == q);
                }
            }
        }
        assert(forall|k: int| 0 <= k < qs.drop_first().len()
            ==> #[trigger] qs.drop_first()[k] == qs[k + 1]);
        lemma_merge_keys_origin(ps, nxt, qs_all, qs.drop_first());
        assert(merge_players(cur, qs) == merge_players(nxt, qs.drop_first()));
    }
}

/// Idempotent merge: inserting the same observation twice yields the very
/// index state that one insert yields. The restriction to observations
/// matters: an incoming player that already carried relations of its own
/// under an identity not yet on file would lose them on the first insert
/// and contribute them on the second.
pub proof fn lemma_insert_idempotent(m: ServerMapV, sv: ServerV)
    requires
        map_v_wf(m),
        server_v_wf(sv),
        observation_shaped(sv),
    ensures
        spec_insert(spec_insert(m, sv), sv) == spec_insert(m, sv),
{
    if !sv.addr.is_v4() {
    } else {
        let m1 = spec_insert(m, sv);
        let m2 = spec_insert(m1, sv);
        let addr = sv.addr;
        let qs = sv.players;
        let a = crate::server_map::shard_key_hi(addr);
        let b = crate::server_map::shard_key_lo(addr);
        let p = addr.port;

        // the player table is already settled after the first insert
        lemma_fold_gives(m.players, qs, addr);
        lemma_upsert_players_wf(m.players, qs, addr);
        lemma_fold_noop(m1.players, qs, addr);
        assert(m2.players == m1.players);

        // so is the canonical server
        assert(has_server_at(m1, a, b, p));
        let canon1 = canon_after(m, sv);
        assert(server_at(m1, a, b, p) == canon1);
        if has_server_at(m, a, b, p) {
            lemma_merge_fold_gives(server_at(m, a, b, p).players, qs);
        } else {
            assert(canon1.players == qs);
            assert forall|k: int| 0 <= k < qs.len()
                implies list_has(canon1.players, #[trigger] qs[k]) by {
                lemma_sorted_index_of(qs, k);
            }
        }
        lemma_merge_fold_noop(canon1.players, qs);
        let canon2 = canon_after(m1, sv);
        assert(canon2 =~= canon1);

        // and writing the same canonical record back moves nothing
        let mid1 = m1.servers[a];
        let leaf1 = mid1[b];
        assert(leaf1.insert(p, canon2) =~= leaf1);
        assert(mid1.insert(b, leaf1.insert(p, canon2)) =~= mid1);
        assert(m1.servers.insert(a, mid1.insert(b, leaf1.insert(p, canon2))) =~= m1.servers);
        assert(m2 =~= m1);
    }
}

/// Every player a server relates to relates back to that server's
/// address in the canonical table.
pub open spec fn server_back_refs(m: ServerMapV, sv: ServerV) -> bool {
    forall|k: int| 0 <= k < sv.players.len()
        ==> table_has(m.players, #[trigger] sv.players[k], sv.addr)
}

/// Every address a table record relates to is an indexed server that
/// relates back to the record's identity.
pub open spec fn player_fwd_refs(m: ServerMapV, pv: PlayerV) -> bool {
    forall|t: int| 0 <= t < pv.servers.len() ==> {
        let ad = #[trigger] pv.servers[t];
        let sv = server_at(m, crate::server_map::shard_key_hi(ad),
            crate::server_map::shard_key_lo(ad), ad.port);
        &&& has_server_at(m, crate::server_map::shard_key_hi(ad),
            crate::server_map::shard_key_lo(ad), ad.port)
        &&& list_has(sv.players, pv)
    }
}

/// The symmetric relation invariant: a player and a server of the index
/// are related on one side exactly as the other side records it.
pub open spec fn symmetric(m: ServerMapV) -> bool {
    &&& forall|a: u16, b: u16, p: u16| #[trigger] has_server_at(m, a, b, p)
        ==> server_back_refs(m, server_at(m, a, b, p))
    &&& forall|j: int| 0 <= j < m.players.len()
        ==> player_fwd_refs(m, #[trigger] m.players[j])
}

/// An empty index is symmetric.
pub proof fn lemma_empty_symmetric(m: ServerMapV)
    requires
        m.servers == Map::<u16, Map<u16, Map<u16, ServerV>>>::empty(),
        m.players == Seq::<PlayerV>::empty(),
    ensures
        symmetric(m),
{
    assert(forall|a: u16, b: u16, p: u16| !has_server_at(m, a, b, p));
}

/// Symmetric relation invariant: one insert of an observation keeps the
/// relation symmetric. The restriction to observations matters: an
/// incoming player already carrying an address of its own would be
/// related to that address in the table without the server there, if
/// any, learning of it.
#[verifier::rlimit(100)]
#[verifier::spinoff_prover]
pub proof fn lemma_insert_preserves_symmetry(m: ServerMapV, sv: ServerV)
    requires
        map_v_wf(m),
        server_v_wf(sv),
        observation_shaped(sv),
        symmetric(m),
    ensures
        symmetric(spec_insert(m, sv)),
{
    if !sv.addr.is_v4() {
    } else {
        let m2 = spec_insert(m, sv);
        let addr = sv.addr;
        let qs = sv.players;
        let a = crate::server_map::shard_key_hi(addr);
        let b = crate::server_map::shard_key_lo(addr);
        let p = addr.port;
        let canon = canon_after(m, sv);

        assert(forall|k: int| 0 <= k < qs.len() ==> list_has(qs, #[trigger] qs[k])) by {
            assert forall|k: int| 0 <= k < qs.len()
                implies list_has(qs, #[trigger] qs[k]) by {
                lemma_sorted_index_of(qs, k);
            }
        }

        // how the new table relates to the old one
        assert(forall|j: int| 0 <= j < m.players.len()
            ==> entry_from(m.players, qs, addr, #[trigger] m.players[j])) by {
            assert forall|j: int| 0 <= j < m.players.len()
                implies entry_from(m.players, qs, addr, #[trigger] m.players[j]) by {
                lemma_sorted_index_of(m.players, j);
            }
        }
        assert(keys_on(m.players, m.players)) by {
            assert forall|j: int| 0 <= j < m.players.len()
                implies list_has(m.players, #[trigger] m.players[j]) by {
                lemma_sorted_index_of(m.players, j);
            }
        }
        lemma_fold_shape(m.players, m.players, qs, qs, addr);
        lemma_fold_gives(m.players, qs, addr);

        // how slots of the new shard table relate to the old one
        assert forall|a2: u16, b2: u16, p2: u16| #[trigger] has_server_at(m2, a2, b2, p2)
            implies (if a2 == a && b2 == b && p2 == p {
                server_at(m2, a2, b2, p2) == canon
            } else {
                has_server_at(m, a2, b2, p2)
                    && server_at(m2, a2, b2, p2) == server_at(m, a2, b2, p2)
            }) by {
            if !(a2 == a && b2 == b && p2 == p) {
                if a2 == a && b2 != b {
                    assert(m2.servers[a2][b2] == (if m.servers.contains_key(a) {
                        m.servers[a]
                    } else {
                        Map::empty()
                    })[b2]);
                }
            }
        }
        assert forall|a2: u16, b2: u16, p2: u16| #[trigger] has_server_at(m, a2, b2, p2)
            implies has_server_at(m2, a2, b2, p2) by {
            if a2 == a && b2 != b {
                assert(m2.servers[a2][b2] == m.servers[a][b2]);
            }
        }

        // identities on the canonical server come from the old record
        // there or from the observation
        if has_server_at(m, a, b, p) {
            let c0 = server_at(m, a, b, p);
            assert(forall|j: int| 0 <= j < c0.players.len()
                ==> list_has(c0.players, #[trigger] c0.players[j])
                    || list_has(qs, c0.players[j])) by {
                assert(stored_server_ok(m, a, b, p));
                assert forall|j: int| 0 <= j < c0.players.len()
                    implies list_has(c0.players, #[trigger] c0.players[j]) by {
                    lemma_sorted_index_of(c0.players, j);
                }
            }
            lemma_merge_keys_origin(c0.players, c0.players, qs, qs);
            assert(stored_server_ok(m, a, b, p));
            crate::server_map::lemma_shard_keys_inject(c0.addr, addr);
            assert(canon.addr == addr);
        }

        // the back references of every indexed server
        assert forall|a2: u16, b2: u16, p2: u16| #[trigger] has_server_at(m2, a2, b2, p2)
            implies server_back_refs(m2, server_at(m2, a2, b2, p2)) by {
            let sv2 = server_at(m2, a2, b2, p2);
            if a2 == a && b2 == b && p2 == p {
                assert(sv2 == canon);
                assert forall|k: int| 0 <= k < canon.players.len()
                    implies table_has(m2.players, #[trigger] canon.players[k], canon.addr) by {
                    let e = canon.players[k];
                    if has_server_at(m, a, b, p) {
                        let c0 = server_at(m, a, b, p);
                        assert(list_has(c0.players, e) || list_has(qs, e));
                        if list_has(c0.players, e) && !list_has(qs, e) {
                            let j0 = player_index_of(c0.players, e.name, e.id);
                            lemma_player_index_of(c0.players, e.name, e.id);
                            assert(server_back_refs(m, c0));
                            assert(table_has(m.players, c0.players[j0], c0.addr));
                            assert(table_has(m.players, e, addr)) by {
                                assert(c0.players[j0].name == e.name
                                    && c0.players[j0].id == e.id);
                            }
                            lemma_fold_keeps_any(m.players, qs, addr, e, addr);
                        } else {
                            let kq = player_index_of(qs, e.name, e.id);
                            lemma_player_index_of(qs, e.name, e.id);
                            assert(table_has(m2.players, qs[kq], addr));
                        }
                    } else {
                        assert(canon == sv);
                        let kq = player_index_of(qs, e.name, e.id);
                        lemma_sorted_index_of(qs, k);
                        assert(table_has(m2.players, qs[k], addr));
                    }
                    assert(canon.addr == addr);
                }
            } else {
                assert(sv2 == server_at(m, a2, b2, p2));
                assert(server_back_refs(m, sv2));
                assert forall|k: int| 0 <= k < sv2.players.len()
                    implies table_has(m2.players, #[trigger] sv2.players[k], sv2.addr) by {
                    assert(table_has(m.players, sv2.players[k], sv2.addr));
                    lemma_fold_keeps_any(m.players, qs, addr, sv2.players[k], sv2.addr);
                }
            }
        }

        // the forward references of every table record
        assert forall|j: int| 0 <= j < m2.players.len()
            implies player_fwd_refs(m2, #[trigger] m2.players[j]) by {
            let e = m2.players[j];
            assert(entry_from(m.players, qs, addr, e));
            let i0 = player_index_of(m.players, e.name, e.id);
            assert forall|t: int| 0 <= t < e.servers.len() implies ({
                let ad = #[trigger] e.servers[t];
                let svt = server_at(m2, crate::server_map::shard_key_hi(ad),
                    crate::server_map::shard_key_lo(ad), ad.port);
                has_server_at(m2, crate::server_map::shard_key_hi(ad),
                    crate::server_map::shard_key_lo(ad), ad.port)
                    && list_has(svt.players, e)
            }) by {
                let ad = e.servers[t];
                let old_member = i0 >= 0 && m.players[i0].servers.contains(ad);
                if i0 >= 0 && e.servers == m.players[i0].servers {
                    assert(m.players[i0].servers.contains(ad));
                } else if i0 >= 0 && e.servers == addr_insert(m.players[i0].servers, addr) {
                    lemma_addr_insert_members(m.players[i0].servers, addr, ad);
                } else {
                    assert(e.servers == seq![addr]);
                    assert(ad == addr);
                }
                if ad == addr && list_has(qs, e) {
                    // the observed address: the canonical server there
                    // knows every observed identity
                    assert(has_server_at(m2, a, b, p));
                    let kq = player_index_of(qs, e.name, e.id);
                    lemma_player_index_of(qs, e.name, e.id);
                    if has_server_at(m, a, b, p) {
                        lemma_merge_fold_gives(server_at(m, a, b, p).players, qs);
                        assert(list_has(canon.players, qs[kq]));
                    } else {
                        assert(canon.players == qs);
                    }
                    assert(list_has(canon.players, e)) by {
                        lemma_player_index_of(canon.players, qs[kq].name, qs[kq].id);
                        lemma_player_index_of(canon.players, e.name, e.id);
                    }
                } else {
                    // an address the record already had: its server is
                    // still indexed and still knows this identity
                    assert(old_member);
                    lemma_player_index_of(m.players, e.name, e.id);
                    assert(player_fwd_refs(m, m.players[i0]));
                    let ah = crate::server_map::shard_key_hi(ad);
                    let al = crate::server_map::shard_key_lo(ad);
                    assert(has_server_at(m, ah, al, ad.port));
                    let sv0 = server_at(m, ah, al, ad.port);
                    assert(list_has(sv0.players, m.players[i0]));
                    assert(has_server_at(m2, ah, al, ad.port));
                    let svt = server_at(m2, ah, al, ad.port);
                    if ah == a && al == b && ad.port == p {
                        assert(svt == canon);
                        if has_server_at(m, a, b, p) {
                            lemma_merge_fold_keeps(sv0.players, qs, m.players[i0]);
                            assert(list_has(canon.players, m.players[i0]));
                        }
                        assert(list_has(svt.players, e)) by {
                            lemma_player_index_of(svt.players, m.players[i0].name,
                                m.players[i0].id);
                            lemma_player_index_of(svt.players, e.name, e.id);
                        }
                    } else {
                        assert(svt == sv0);
                        assert(list_has(svt.players, e)) by {
                            lemma_player_index_of(svt.players, m.players[i0].name,
                                m.players[i0].id);
                            lemma_player_index_of(svt.players, e.name, e.id);
                        }
                    }
                }
            }
        }
    }
}

} // verus!
