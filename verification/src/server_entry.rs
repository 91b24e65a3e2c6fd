//! Server records. A server is identified by its socket address; its
//! relation set holds the players observed on it, ordered by identity.
//! The merge operation and both binary encodings live here.
use vstd::prelude::*;
use crate::net::NetAddress;
use crate::varint::{spec_varint, spec_vdec, write_varint, read_varint, lemma_varint_round_trip};
use crate::text::{addr_ptr_enc, spec_parse_addr_ptr, parse_addr_ptr, write_addr_ptr,
    lemma_addr_ptr_round_trip};
use crate::player_entry::{Player, PlayerV, player_ptr_enc, spec_parse_player_ptr,
    player_insert, player_merge, merge_players, players_sorted, player_v_wf, player_lt,
    view_players, find_player_index, insert_player_sorted, copy_player_deep, name_ascii,
    lemma_merge_players_snoc, lemma_player_ptr_round_trip};
use crate::DecodeError;

verus! {

/// The mathematical shape of a server: its address and related players.
#[verifier::ext_equal]
pub ghost struct ServerV {
    pub addr: NetAddress,
    pub players: Seq<PlayerV>,
}

/// A server record: the address identifies it, `players` is its ordered
/// relation set.
#[derive(Debug)]
pub struct Server {
    pub addr: NetAddress,
    pub players: Vec<Player>,
}

impl View for Server {
    type V = ServerV;

    open spec fn view(&self) -> ServerV {
        ServerV { addr: self.addr, players: view_players(self.players@) }
    }
}

/// A well-formed server: relation set ordered by player identity, every
/// related record itself well formed.
pub open spec fn server_v_wf(s: ServerV) -> bool {
    &&& players_sorted(s.players)
    &&& forall|i: int| 0 <= i < s.players.len() ==> player_v_wf(#[trigger] s.players[i])
}

impl Server {
    /// A well-formed record, as every constructor of the library builds it.
    pub open spec fn wf(self) -> bool {
        server_v_wf(self@)
    }
}

impl PartialEq for Server {
    /// Identity equality: the address alone; the player set is not part
    /// of a server's identity.
    fn eq(&self, other: &Self) -> (r: bool) {
        self.addr == other.addr
    }
}

impl vstd::std_specs::cmp::PartialEqSpecImpl for Server {
    open spec fn obeys_eq_spec() -> bool {
        true
    }

    open spec fn eq_spec(&self, other: &Self) -> bool {
        self.addr == other.addr
    }
}

impl Eq for Server {}

impl PartialOrd for Server {
    /// Identity order: by address alone, numeric.
    fn partial_cmp(&self, other: &Self) -> (r: Option<core::cmp::Ordering>) {
        proof {
            crate::net::lemma_addr_lt_total(self.addr, other.addr, other.addr);
        }
        if crate::net::addr_less(&self.addr, &other.addr) {
            Some(core::cmp::Ordering::Less)
        } else if self.addr == other.addr {
            Some(core::cmp::Ordering::Equal)
        } else {
            Some(core::cmp::Ordering::Greater)
        }
    }
}

impl vstd::std_specs::cmp::PartialOrdSpecImpl for Server {
    open spec fn obeys_partial_cmp_spec() -> bool {
        true
    }

    open spec fn partial_cmp_spec(&self, other: &Self) -> Option<core::cmp::Ordering> {
        if crate::net::addr_lt(self.addr, other.addr) {
            Some(core::cmp::Ordering::Less)
        } else if self.addr == other.addr {
            Some(core::cmp::Ordering::Equal)
        } else {
            Some(core::cmp::Ordering::Greater)
        }
    }
}

impl Server {
    /// Merge: folds every player of the other record into this one's
    /// relation set by take-then-reinsert. A record of a known identity is
    /// deep-merged, an unknown one is inserted in order; nothing is lost.
    pub fn update(&mut self, other: &Server)
        ensures
            final(self)@.addr == old(self)@.addr,
            final(self)@.players == merge_players(old(self)@.players, other@.players),
    {
        let ghost s0 = view_players(old(self).players@);
        let ghost qs = view_players(other.players@);
        let mut i: usize = 0;
        proof {
            assert(qs.take(0) =~= Seq::empty());
            assert(merge_players(s0, Seq::empty()) == s0);
        }
        while i < other.players.len()
            invariant
                i <= other.players.len(),
                qs == view_players(other.players@),
                self.addr == old(self).addr,
                view_players(self.players@) == merge_players(s0, qs.take(i as int)),
            decreases other.players.len() - i,
        {
            let ghost cur = view_players(self.players@);
            let ghost qv = qs[i as int];
            proof {
                assert(qv == other.players@[i as int]@);
                assert(qs.take(i + 1) =~= qs.take(i as int).push(qv));
                lemma_merge_players_snoc(s0, qs.take(i as int), qv);
            }
            let q = &other.players[i];
            match find_player_index(&self.players, &q.name, q.uuid) {
                Some(k) => {
                    let mut found = self.players.remove(k);
                    found.update(q);
                    self.players.insert(k, found);
                    proof {
                        assert(view_players(self.players@)
                            =~= cur.update(k as int, player_merge(cur[k as int], qv)));
                    }
                },
                None => {
                    let fresh = copy_player_deep(q);
                    insert_player_sorted(&mut self.players, fresh);
                },
            }
            i = i + 1;
        }
        proof {
            assert(qs.take(qs.len() as int) =~= qs);
        }
    }
}

/// The identity-only view of a player, as its pointer form carries it.
pub open spec fn ptr_view(p: PlayerV) -> PlayerV {
    PlayerV { name: p.name, id: p.id, servers: Seq::empty() }
}

/// The identity-only views of a whole list.
pub open spec fn ptr_views(s: Seq<PlayerV>) -> Seq<PlayerV> {
    s.map_values(|p: PlayerV| ptr_view(p))
}

/// The concatenation of the pointer forms of a list of players.
pub open spec fn cat_player_ptrs(s: Seq<PlayerV>) -> Seq<u8>
    decreases s.len(),
{
    if s.len() == 0 {
        Seq::empty()
    } else {
        player_ptr_enc(s[0].name, s[0].id) + cat_player_ptrs(s.drop_first())
    }
}

/// Appending one more player to a pointer list appends its pointer form.
pub proof fn lemma_cat_player_ptrs_snoc(s: Seq<PlayerV>, x: PlayerV)
    ensures
        cat_player_ptrs(s.push(x)) == cat_player_ptrs(s) + player_ptr_enc(x.name, x.id),
    decreases s.len(),
{
    if s.len() == 0 {
        assert(s.push(x)[0] == x);
        assert(s.push(x).drop_first() =~= Seq::empty());
        assert(cat_player_ptrs(Seq::empty()) == Seq::<u8>::empty());
        assert(cat_player_ptrs(s.push(x)) =~= cat_player_ptrs(s) + player_ptr_enc(x.name, x.id));
    } else {
        assert(s.push(x)[0] == s[0]);
        assert(s.push(x).drop_first() =~= s.drop_first().push(x));
        lemma_cat_player_ptrs_snoc(s.drop_first(), x);
        assert(cat_player_ptrs(s.push(x)) =~= cat_player_ptrs(s) + player_ptr_enc(x.name, x.id));
    }
}

/// The full form of a server: its own pointer form, a varint relation
/// count, then the pointer form of every related player.
pub open spec fn server_full_enc(s: ServerV) -> Seq<u8> {
    addr_ptr_enc(s.addr) + spec_varint(s.players.len()) + cat_player_ptrs(s.players)
}

/// The parse of `n` player pointers in a row, folded into an
/// identity-ordered list as the ordered set insertion does.
pub open spec fn spec_parse_player_ptrs(s: Seq<u8>, n: nat, acc: Seq<PlayerV>)
    -> Result<(Seq<PlayerV>, nat), DecodeError>
    decreases n,
{
    if n == 0 {
        Ok((acc, 0))
    } else {
        match spec_parse_player_ptr(s) {
            Err(e) => Err(e),
            Ok((q, c)) => {
                match spec_parse_player_ptrs(s.skip(c as int), (n - 1) as nat,
                    player_insert(acc, q)) {
                    Err(e) => Err(e),
                    Ok((res, c2)) => Ok((res, (c + c2) as nat)),
                }
            },
        }
    }
}

/// The parse of a server in full form.
pub open spec fn spec_parse_server_full(s: Seq<u8>) -> Result<(ServerV, nat), DecodeError> {
    match spec_parse_addr_ptr(s) {
        Err(e) => Err(e),
        Ok((addr, c)) => {
            match spec_vdec(s.skip(c as int), 0, 0) {
                None => Err(DecodeError::BadVarint),
                Some((n, c2)) => {
                    match spec_parse_player_ptrs(s.skip((c + c2) as int), n as nat,
                        Seq::empty()) {
                        Err(e) => Err(e),
                        Ok((players, c3)) => Ok((
                            ServerV { addr, players },
                            (c + c2 + c3) as nat,
                        )),
                    }
                },
            }
        },
    }
}

/// Reads `n` player pointers starting at `pos` into an identity-ordered
/// list; on success returns the list and the position after the last one.
fn parse_player_ptrs(buf: &[u8], pos: usize, n: u64)
    -> (r: Result<(Vec<Player>, usize), DecodeError>)
    requires
        pos <= buf@.len(),
    ensures
        ({
            let d = spec_parse_player_ptrs(buf@.skip(pos as int), n as nat, Seq::empty());
            match r {
                Ok(p) => d == Ok::<_, DecodeError>((view_players(p.0@), (p.1 - pos) as nat))
                    && pos <= p.1 <= buf@.len(),
                Err(e) => d == Err::<(Seq<PlayerV>, nat), _>(e),
            }
        }),
{
    let mut out: Vec<Player> = Vec::new();
    let mut cur: usize = pos;
    let mut i: u64 = 0;
    proof {
        assert(view_players(out@) =~= Seq::<PlayerV>::empty());
    }
    while i < n
        invariant
            pos <= cur <= buf@.len(),
            0 <= i <= n,
            ({
                let d = spec_parse_player_ptrs(buf@.skip(pos as int), n as nat, Seq::empty());
                let drest = spec_parse_player_ptrs(buf@.skip(cur as int), (n - i) as nat,
                    view_players(out@));
                match drest {
                    Ok(p) => d == Ok::<_, DecodeError>((p.0, ((cur - pos) + p.1) as nat)),
                    Err(e) => d == Err::<(Seq<PlayerV>, nat), _>(e),
                }
            }),
        decreases n - i,
    {
        match Player::parse_pointer(buf, cur) {
            Err(e) => {
                return Err(e);
            },
            Ok((q, np)) => {
                proof {
                    assert(buf@.skip(cur as int).skip(np - cur) =~= buf@.skip(np as int));
                }
                insert_player_sorted(&mut out, q);
                cur = np;
                i = i + 1;
            },
        }
    }
    Ok((out, cur))
}

impl Server {
    /// Encodes the pointer form of this server: its address as text with
    /// a varint length prefix. Only IPv4 addresses have a textual form;
    /// the index never holds any other kind.
    pub fn serialize_pointer(&self) -> (r: Vec<u8>)
        requires
            self@.addr.is_v4(),
        ensures
            r@ == addr_ptr_enc(self@.addr),
    {
        let mut res: Vec<u8> = Vec::new();
        write_addr_ptr(&mut res, &self.addr);
        proof {
            assert(res@ =~= addr_ptr_enc(self@.addr));
        }
        res
    }

    /// Encodes the full form of this server.
    pub fn serialize(&self) -> (r: Vec<u8>)
        requires
            self@.addr.is_v4(),
        ensures
            r@ == server_full_enc(self@),
    {
        let mut res: Vec<u8> = Vec::new();
        write_addr_ptr(&mut res, &self.addr);
        write_varint(&mut res, self.players.len() as u64);
        let ghost pv = view_players(self.players@);
        let ghost head = addr_ptr_enc(self@.addr) + spec_varint(pv.len());
        let mut i: usize = 0;
        proof {
            assert(pv.take(0) =~= Seq::empty());
            assert(res@ =~= head + cat_player_ptrs(Seq::empty()));
        }
        while i < self.players.len()
            invariant
                i <= self.players.len(),
                pv == view_players(self.players@),
                head == addr_ptr_enc(self@.addr) + spec_varint(pv.len()),
                res@ == head + cat_player_ptrs(pv.take(i as int)),
            decreases self.players.len() - i,
        {
            proof {
                assert(pv.take(i + 1) =~= pv.take(i as int).push(pv[i as int]));
                lemma_cat_player_ptrs_snoc(pv.take(i as int), pv[i as int]);
                assert(pv[i as int] == self.players@[i as int]@);
            }
            let mut pb = self.players[i].serialize_pointer();
            res.append(&mut pb);
            proof {
                assert(res@ =~= head + cat_player_ptrs(pv.take(i + 1)));
            }
            i = i + 1;
        }
        proof {
            assert(pv.take(pv.len() as int) =~= pv);
            assert(res@ =~= server_full_enc(self@));
        }
        res
    }

    /// Decodes a server from its pointer form at the front of the buffer;
    /// bytes after it are ignored. The relation set comes back empty.
    pub fn deserialize_pointer(buf: &[u8]) -> (r: Result<Server, DecodeError>)
        ensures
            ({
                let d = spec_parse_addr_ptr(buf@);
                match r {
                    Ok(s) => d matches Ok(q) && q.0 == s@.addr
                        && s@.players == Seq::<PlayerV>::empty(),
                    Err(e) => d == Err::<(NetAddress, nat), _>(e),
                }
            }),
    {
        proof {
            assert(buf@.skip(0) =~= buf@);
        }
        match parse_addr_ptr(buf, 0) {
            Err(e) => Err(e),
            Ok((addr, _)) => {
                let s = Server { addr, players: Vec::new() };
                proof {
                    assert(view_players(Seq::<Player>::empty()) =~= Seq::<PlayerV>::empty());
                }
                Ok(s)
            },
        }
    }

    /// Decodes a server from its full form at the front of the buffer;
    /// bytes after it are ignored. Every related player comes back in
    /// identity order with an empty relation set of its own.
    pub fn deserialize(buf: &[u8]) -> (r: Result<Server, DecodeError>)
        ensures
            ({
                let d = spec_parse_server_full(buf@);
                match r {
                    Ok(s) => d matches Ok(q) && q.0 == s@,
                    Err(e) => d == Err::<(ServerV, nat), _>(e),
                }
            }),
    {
        proof {
            assert(buf@.skip(0) =~= buf@);
        }
        match parse_addr_ptr(buf, 0) {
            Err(e) => Err(e),
            Ok((addr, p1)) => {
                match read_varint(buf, p1) {
                    None => Err(DecodeError::BadVarint),
                    Some((n, p2)) => {
                        proof {
                            assert(buf@.skip(p1 as int).skip(p2 - p1)
                                =~= buf@.skip(p2 as int));
                        }
                        match parse_player_ptrs(buf, p2, n) {
                            Err(e) => Err(e),
                            Ok((players, _)) => Ok(Server { addr, players }),
                        }
                    },
                }
            },
        }
    }
}

/// Round trip of the server pointer form.
pub proof fn lemma_server_ptr_round_trip(a: NetAddress, rest: Seq<u8>)
    requires
        a.is_v4(),
    ensures
        spec_parse_addr_ptr(addr_ptr_enc(a) + rest)
            == Ok::<_, DecodeError>((a, addr_ptr_enc(a).len())),
{
    lemma_addr_ptr_round_trip(a, rest);
}

/// Round trip of a player pointer list: parsing the concatenated pointer
/// forms of identity-ordered players rebuilds exactly their identity
/// views.
pub proof fn lemma_player_ptrs_round_trip(items: Seq<PlayerV>, rest: Seq<u8>, acc: Seq<PlayerV>)
    requires
        forall|j: int| 0 <= j < items.len() ==> name_ascii((#[trigger] items[j]).name),
        forall|j: int| 0 <= j < items.len() ==> (#[trigger] items[j]).name.len() <= u64::MAX,
        players_sorted(acc + ptr_views(items)),
    ensures
        spec_parse_player_ptrs(cat_player_ptrs(items) + rest, items.len(), acc)
            == Ok::<_, DecodeError>((acc + ptr_views(items), cat_player_ptrs(items).len())),
    decreases items.len(),
{
    if items.len() == 0 {
        assert(cat_player_ptrs(items) + rest =~= rest);
        assert(acc + ptr_views(items) =~= acc);
    } else {
        let q0 = items[0];
        let v0 = ptr_view(q0);
        let tail = items.drop_first();
        let s = cat_player_ptrs(items) + rest;
        assert(s =~= player_ptr_enc(q0.name, q0.id) + (cat_player_ptrs(tail) + rest));
        lemma_player_ptr_round_trip(q0.name, q0.id, cat_player_ptrs(tail) + rest);
        let c = player_ptr_enc(q0.name, q0.id).len();
        assert(s.skip(c as int) =~= cat_player_ptrs(tail) + rest);
        assert(player_insert(acc, v0) == acc.push(v0)) by {
            assert((acc + ptr_views(items))[acc.len() as int] == ptr_views(items)[0]);
            assert(ptr_views(items)[0] == v0);
            assert forall|j: int| 0 <= j < acc.len() implies player_lt(#[trigger] acc[j], v0) by {
                assert((acc + ptr_views(items))[j] == acc[j]);
            }
            lemma_player_insert_high(acc, v0);
        }
        assert(forall|j: int| 0 <= j < tail.len() ==> #[trigger] tail[j] == items[j + 1]);
        assert(acc.push(v0) + ptr_views(tail) =~= acc + ptr_views(items)) by {
            assert(forall|j: int| 0 <= j < tail.len()
                ==> #[trigger] ptr_views(tail)[j] == ptr_views(items)[j + 1]);
        }
        lemma_player_ptrs_round_trip(tail, rest, acc.push(v0));
    }
}

/// Inserting a player above every entry of an ordered list appends it.
proof fn lemma_player_insert_high(s: Seq<PlayerV>, q: PlayerV)
    requires
        forall|j: int| 0 <= j < s.len() ==> player_lt(#[trigger] s[j], q),
    ensures
        player_insert(s, q) == s.push(q),
    decreases s.len(),
{
    if s.len() == 0 {
        assert(player_insert(s, q) =~= s.push(q));
    } else {
        assert(player_lt(s[0], q));
        let t = s.drop_first();
        assert(forall|j: int| 0 <= j < t.len() ==> #[trigger] t[j] == s[j + 1]);
        lemma_player_insert_high(t, q);
        assert(player_insert(s, q) == seq![s[0]] + player_insert(t, q));
        assert(seq![s[0]] + t.push(q) =~= s.push(q));
    }
}

/// Round trip of the server full form: decoding what was encoded yields
/// the address and the identity of every related player, each with an
/// empty relation set of its own.
/// Round trip of the count and player list behind a server's full form.
#[verifier::spinoff_prover]
proof fn lemma_server_body_round_trip(players: Seq<PlayerV>, rest: Seq<u8>)
    requires
        players_sorted(players),
        players.len() <= u64::MAX,
        forall|j: int| 0 <= j < players.len() ==> name_ascii((#[trigger] players[j]).name),
        forall|j: int| 0 <= j < players.len()
            ==> (#[trigger] players[j]).name.len() <= u64::MAX,
    ensures
        ({
            let body = spec_varint(players.len()) + (cat_player_ptrs(players) + rest);
            let c2 = spec_varint(players.len()).len();
            &&& spec_vdec(body, 0, 0) == Some((players.len() as u64, c2))
            &&& spec_parse_player_ptrs(body.skip(c2 as int), players.len(), Seq::empty())
                == Ok::<_, DecodeError>((ptr_views(players), cat_player_ptrs(players).len()))
        }),
{
    let body = spec_varint(players.len()) + (cat_player_ptrs(players) + rest);
    assert(body =~= spec_varint(players.len() as u64 as nat)
        + (cat_player_ptrs(players) + rest));
    lemma_varint_round_trip(players.len() as u64, cat_player_ptrs(players) + rest);
    let c2 = spec_varint(players.len()).len();
    assert(body.skip(c2 as int) =~= cat_player_ptrs(players) + rest);
    assert forall|i: int, j: int| 0 <= i < j < ptr_views(players).len()
        implies player_lt(ptr_views(players)[i], ptr_views(players)[j]) by {
        assert(ptr_views(players)[i] == ptr_view(players[i]));
        assert(ptr_views(players)[j] == ptr_view(players[j]));
        assert(player_lt(players[i], players[j]));
    }
    assert(players_sorted(Seq::<PlayerV>::empty() + ptr_views(players))) by {
        assert(Seq::<PlayerV>::empty() + ptr_views(players) =~= ptr_views(players));
    }
    lemma_player_ptrs_round_trip(players, rest, Seq::empty());
    assert(Seq::<PlayerV>::empty() + ptr_views(players) =~= ptr_views(players));
}

#[verifier::rlimit(100)]
#[verifier::spinoff_prover]
pub proof fn lemma_server_full_round_trip(sv: ServerV, rest: Seq<u8>)
    requires
        sv.addr.is_v4(),
        server_v_wf(sv),
        sv.players.len() <= u64::MAX,
        forall|j: int| 0 <= j < sv.players.len()
            ==> (#[trigger] sv.players[j]).name.len() <= u64::MAX,
    ensures
        spec_parse_server_full(server_full_enc(sv) + rest)
            == Ok::<_, DecodeError>((
                ServerV { addr: sv.addr, players: ptr_views(sv.players) },
                server_full_enc(sv).len(),
            )),
{
    let s = server_full_enc(sv) + rest;
    let body = spec_varint(sv.players.len()) + (cat_player_ptrs(sv.players) + rest);
    assert(s =~= addr_ptr_enc(sv.addr) + body);
    lemma_addr_ptr_round_trip(sv.addr, body);
    let c = addr_ptr_enc(sv.addr).len();
    assert(spec_parse_addr_ptr(s) == Ok::<_, DecodeError>((sv.addr, c)));
    assert(s.skip(c as int) =~= body);
    lemma_server_body_round_trip(sv.players, rest);
    let c2 = spec_varint(sv.players.len()).len();
    assert(s.skip((c + c2) as int) =~= body.skip(c2 as int));
}

} // verus!
