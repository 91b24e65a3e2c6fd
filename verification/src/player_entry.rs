//! Player records. A player is identified by a name and a 128-bit id; its
//! relation set holds the addresses of the servers it was seen on, as an
//! ordered list. Identity, order, the merge operation and both binary
//! encodings (full and pointer form) live here.
use vstd::prelude::*;
use vstd::slice::{slice_subrange, slice_to_vec};
use vstd::arithmetic::power2::{pow2, lemma_pow2_adds, lemma_pow2_strictly_increases,
    lemma2_to64};
use vstd::arithmetic::div_mod::lemma_fundamental_div_mod;
use crate::net::{NetAddress, addrs_sorted, addr_insert, union_addrs, insert_addr_sorted,
    lemma_union_addrs_snoc, lemma_union_addrs_members, lemma_union_addrs_sorted,
    lemma_addr_insert_members};
use crate::varint::{spec_varint, spec_vdec, write_varint, read_varint, lemma_varint_round_trip};
use crate::text::{cat_addr_ptrs, spec_parse_addr_ptrs, parse_addr_ptrs, write_addr_ptr,
    lemma_cat_addr_ptrs_snoc, lemma_addr_ptrs_round_trip};
use crate::DecodeError;

verus! {

/// Strict lexicographic order on byte strings: a proper prefix sorts
/// before its extensions, otherwise the first differing byte decides.
pub open spec fn bytes_lt(a: Seq<u8>, b: Seq<u8>) -> bool
    decreases a.len(),
{
    if b.len() == 0 {
        false
    } else if a.len() == 0 {
        true
    } else if a[0] < b[0] {
        true
    } else if a[0] > b[0] {
        false
    } else {
        bytes_lt(a.drop_first(), b.drop_first())
    }
}

/// `bytes_lt` is asymmetric, and two mutually incomparable strings are
/// equal.
pub proof fn lemma_bytes_lt_asym(a: Seq<u8>, b: Seq<u8>)
    ensures
        !(bytes_lt(a, b) && bytes_lt(b, a)),
        (!bytes_lt(a, b) && !bytes_lt(b, a)) ==> a == b,
    decreases a.len(),
{
    if a.len() > 0 && b.len() > 0 && a[0] == b[0] {
        lemma_bytes_lt_asym(a.drop_first(), b.drop_first());
        if !bytes_lt(a, b) && !bytes_lt(b, a) {
            assert(a.drop_first() == b.drop_first());
            assert(a =~= b) by {
                assert(forall|i: int| 1 <= i < a.len()
                    ==> a[i] == a.drop_first()[i - 1] && b[i] == b.drop_first()[i - 1]);
            }
        }
    }
}

/// `bytes_lt` is transitive.
pub proof fn lemma_bytes_lt_trans(a: Seq<u8>, b: Seq<u8>, c: Seq<u8>)
    requires
        bytes_lt(a, b),
        bytes_lt(b, c),
    ensures
        bytes_lt(a, c),
    decreases a.len(),
{
    if a.len() > 0 && b.len() > 0 && c.len() > 0 && a[0] == b[0] && b[0] == c[0] {
        lemma_bytes_lt_trans(a.drop_first(), b.drop_first(), c.drop_first());
    }
}

/// The mathematical shape of a player: identity and related addresses.
#[verifier::ext_equal]
pub ghost struct PlayerV {
    pub name: Seq<u8>,
    pub id: u128,
    pub servers: Seq<NetAddress>,
}

/// A player record: name and id identify it, `servers` is its ordered
/// relation set.
#[derive(Debug)]
pub struct Player {
    pub name: Vec<u8>,
    pub uuid: u128,
    pub servers: Vec<NetAddress>,
}

impl View for Player {
    type V = PlayerV;

    open spec fn view(&self) -> PlayerV {
        PlayerV { name: self.name@, id: self.uuid, servers: self.servers@ }
    }
}

/// Player names are ASCII.
pub open spec fn name_ascii(s: Seq<u8>) -> bool {
    forall|i: int| 0 <= i < s.len() ==> s[i] < 128
}

/// Every address in a list is IPv4.
pub open spec fn addrs_v4(s: Seq<NetAddress>) -> bool {
    forall|i: int| 0 <= i < s.len() ==> (#[trigger] s[i]).is_v4()
}

/// A well-formed player: ASCII name and a sorted relation set whose
/// addresses are all IPv4, the only kind the index relates.
pub open spec fn player_v_wf(p: PlayerV) -> bool {
    name_ascii(p.name) && addrs_sorted(p.servers) && addrs_v4(p.servers)
}

/// An ordered insertion of an IPv4 address keeps a list all-IPv4.
pub proof fn lemma_addr_insert_v4(s: Seq<NetAddress>, x: NetAddress)
    requires
        addrs_v4(s),
        x.is_v4(),
    ensures
        addrs_v4(addr_insert(s, x)),
{
    let r = addr_insert(s, x);
    assert forall|j: int| 0 <= j < r.len() implies (#[trigger] r[j]).is_v4() by {
        assert(r.contains(r[j]));
        lemma_addr_insert_members(s, x, r[j]);
        if s.contains(r[j]) {
            let m = choose|m: int| 0 <= m < s.len() && s[m] == r[j];
            assert(s[m].is_v4());
        }
    }
}

/// A union of all-IPv4 lists is all-IPv4.
pub proof fn lemma_union_addrs_v4(s: Seq<NetAddress>, t: Seq<NetAddress>)
    requires
        addrs_sorted(s),
        addrs_v4(s),
        addrs_v4(t),
    ensures
        addrs_v4(union_addrs(s, t)),
{
    let r = union_addrs(s, t);
    assert forall|j: int| 0 <= j < r.len() implies (#[trigger] r[j]).is_v4() by {
        assert(r.contains(r[j]));
        lemma_union_addrs_members(s, t, r[j]);
        if s.contains(r[j]) {
            let m = choose|m: int| 0 <= m < s.len() && s[m] == r[j];
            assert(s[m].is_v4());
        }
        if t.contains(r[j]) {
            let m = choose|m: int| 0 <= m < t.len() && t[m] == r[j];
            assert(t[m].is_v4());
        }
    }
}

impl Player {
    /// A well-formed record, as every constructor of the library builds it.
    pub open spec fn wf(self) -> bool {
        player_v_wf(self@)
    }
}

/// Strict total order on player identities: name first, then id.
pub open spec fn player_lt(p: PlayerV, q: PlayerV) -> bool {
    bytes_lt(p.name, q.name) || (p.name == q.name && p.id < q.id)
}

/// Two players with the same identity.
pub open spec fn same_key(p: PlayerV, q: PlayerV) -> bool {
    p.name == q.name && p.id == q.id
}

/// `player_lt` is a strict total order on identities.
pub proof fn lemma_player_lt_total(p: PlayerV, q: PlayerV, r: PlayerV)
    ensures
        player_lt(p, q) && player_lt(q, r) ==> player_lt(p, r),
        !(player_lt(p, q) && player_lt(q, p)),
        player_lt(p, q) || player_lt(q, p) || same_key(p, q),
{
    lemma_bytes_lt_asym(p.name, q.name);
    lemma_bytes_lt_asym(q.name, r.name);
    lemma_bytes_lt_asym(p.name, r.name);
    if bytes_lt(p.name, q.name) && bytes_lt(q.name, r.name) {
        lemma_bytes_lt_trans(p.name, q.name, r.name);
    }
}

/// A player list sorted strictly by identity; keys are then unique.
pub open spec fn players_sorted(s: Seq<PlayerV>) -> bool {
    forall|i: int, j: int| 0 <= i < j < s.len() ==> player_lt(s[i], s[j])
}

/// The first position holding the given identity, or -1.
pub open spec fn player_index_of(s: Seq<PlayerV>, name: Seq<u8>, id: u128) -> int
    decreases s.len(),
{
    if s.len() == 0 {
        -1
    } else if s[0].name == name && s[0].id == id {
        0
    } else if player_index_of(s.drop_first(), name, id) < 0 {
        -1
    } else {
        player_index_of(s.drop_first(), name, id) + 1
    }
}

/// What `player_index_of` finds: the first matching position, or the fact
/// that none matches.
pub proof fn lemma_player_index_of(s: Seq<PlayerV>, name: Seq<u8>, id: u128)
    ensures
        player_index_of(s, name, id) < 0
            ==> forall|j: int| 0 <= j < s.len()
                ==> !(s[j].name == name && (#[trigger] s[j]).id == id),
        player_index_of(s, name, id) >= 0 ==> {
            let i = player_index_of(s, name, id);
            &&& 0 <= i < s.len()
            &&& s[i].name == name && s[i].id == id
            &&& forall|j: int| 0 <= j < i
                ==> !(s[j].name == name && (#[trigger] s[j]).id == id)
        },
    decreases s.len(),
{
    if s.len() > 0 {
        let t = s.drop_first();
        lemma_player_index_of(t, name, id);
        assert(forall|j: int| 0 <= j < t.len() ==> #[trigger] t[j] == s[j + 1]);
        if !(s[0].name == name && s[0].id == id) {
            let it = player_index_of(t, name, id);
            if it < 0 {
                assert forall|j: int| 0 <= j < s.len()
                    implies !(s[j].name == name && (#[trigger] s[j]).id == id) by {
                    if j > 0 {
                        assert(t[j - 1] == s[j]);
                    }
                }
            } else {
                assert(s[it + 1] == t[it]);
                assert forall|j: int| 0 <= j < it + 1
                    implies !(s[j].name == name && (#[trigger] s[j]).id == id) by {
                    if j > 0 {
                        assert(t[j - 1] == s[j]);
                    }
                }
            }
        }
    }
}

/// The id space fits below `pow2(128)`.
proof fn lemma_pow2_128()
    ensures
        pow2(128) == 0x100000000000000000000000000000000,
{
    lemma2_to64();
    lemma_pow2_adds(64, 64);
    assert(pow2(128) == pow2(64) * pow2(64));
}

/// Insertion of a player into an identity-ordered list; an entry with the
/// same identity keeps its place and the stored record wins, as the
/// ordered set insertion of the containers this models.
pub open spec fn player_insert(s: Seq<PlayerV>, q: PlayerV) -> Seq<PlayerV>
    decreases s.len(),
{
    if s.len() == 0 {
        seq![q]
    } else if player_lt(s[0], q) {
        seq![s[0]] + player_insert(s.drop_first(), q)
    } else if same_key(s[0], q) {
        s
    } else {
        seq![q] + s
    }
}

/// Merging one player into another of the same identity: the deep union
/// of their relation sets.
pub open spec fn player_merge(c: PlayerV, q: PlayerV) -> PlayerV {
    PlayerV { name: c.name, id: c.id, servers: union_addrs(c.servers, q.servers) }
}

/// One step of the take-then-reinsert merge on a player list: an entry of
/// the same identity absorbs the incoming record, otherwise the record is
/// inserted in order.
pub open spec fn merge_one_player(s: Seq<PlayerV>, q: PlayerV) -> Seq<PlayerV> {
    let i = player_index_of(s, q.name, q.id);
    if i >= 0 {
        s.update(i, player_merge(s[i], q))
    } else {
        player_insert(s, q)
    }
}

/// The merge of a whole list of incoming players, first to last.
pub open spec fn merge_players(s: Seq<PlayerV>, qs: Seq<PlayerV>) -> Seq<PlayerV>
    decreases qs.len(),
{
    if qs.len() == 0 {
        s
    } else {
        merge_players(merge_one_player(s, qs[0]), qs.drop_first())
    }
}

/// Membership in a player list with one record placed in front.
proof fn lemma_player_cons_contains(h: PlayerV, t: Seq<PlayerV>, y: PlayerV)
    ensures
        (seq![h] + t).contains(y) <==> (y == h || t.contains(y)),
{
    let s = seq![h] + t;
    if t.contains(y) {
        let i = choose|i: int| 0 <= i < t.len() && t[i] == y;
        assert(s[i + 1] == y);
    }
    if y == h {
        assert(s[0] == y);
    }
    if s.contains(y) {
        let i = choose|i: int| 0 <= i < s.len() && s[i] == y;
        if i > 0 {
            assert(t[i - 1] == y);
        }
    }
}

/// The members of `player_insert` are the old members plus the record,
/// except that an entry of the same identity absorbs it.
pub proof fn lemma_player_insert_members(s: Seq<PlayerV>, q: PlayerV, y: PlayerV)
    ensures
        player_insert(s, q).contains(y) ==> (s.contains(y) || y == q),
        s.contains(y) ==> player_insert(s, q).contains(y),
    decreases s.len(),
{
    if s.len() == 0 {
        assert(player_insert(s, q) =~= seq![q]);
        if player_insert(s, q).contains(y) {
            let i = choose|i: int| 0 <= i < 1 && player_insert(s, q)[i] == y;
            assert(y == q);
        }
    } else if player_lt(s[0], q) {
        let t = s.drop_first();
        lemma_player_insert_members(t, q, y);
        assert(player_insert(s, q) == seq![s[0]] + player_insert(t, q));
        assert(s == seq![s[0]] + t);
        lemma_player_cons_contains(s[0], player_insert(t, q), y);
        lemma_player_cons_contains(s[0], t, y);
    } else if same_key(s[0], q) {
    } else {
        assert(player_insert(s, q) == seq![q] + s);
        lemma_player_cons_contains(q, s, y);
    }
}

/// Inserting into an identity-ordered list keeps it ordered.
pub proof fn lemma_player_insert_sorted(s: Seq<PlayerV>, q: PlayerV)
    requires
        players_sorted(s),
    ensures
        players_sorted(player_insert(s, q)),
    decreases s.len(),
{
    let r = player_insert(s, q);
    if s.len() == 0 {
        assert(players_sorted(r));
    } else if player_lt(s[0], q) {
        let t = s.drop_first();
        assert(players_sorted(t)) by {
            assert(forall|i: int, j: int| 0 <= i < j < t.len()
                ==> t[i] == s[i + 1] && t[j] == s[j + 1]);
        }
        lemma_player_insert_sorted(t, q);
        assert(r == seq![s[0]] + player_insert(t, q));
        assert forall|i: int, j: int| 0 <= i < j < r.len() implies player_lt(r[i], r[j]) by {
            if i == 0 {
                let rt = player_insert(t, q);
                assert(r[j] == rt[j - 1]);
                lemma_player_insert_members(t, q, rt[j - 1]);
                if rt[j - 1] == q {
                } else if t.contains(rt[j - 1]) {
                    let m = choose|m: int| 0 <= m < t.len() && t[m] == rt[j - 1];
                    assert(t[m] == s[m + 1]);
                } else {
                    assert(rt.contains(rt[j - 1]));
                }
            } else {
                assert(r[i] == player_insert(t, q)[i - 1]);
                assert(r[j] == player_insert(t, q)[j - 1]);
            }
        }
    } else if same_key(s[0], q) {
    } else {
        assert(r == seq![q] + s);
        lemma_player_lt_total(q, s[0], s[0]);
        assert(player_lt(q, s[0]));
        assert forall|i: int, j: int| 0 <= i < j < r.len() implies player_lt(r[i], r[j]) by {
            if i == 0 {
                if j == 1 {
                } else {
                    lemma_player_lt_total(q, s[0], s[j - 1]);
                }
            }
        }
    }
}

/// Where the scan of `insert_player_sorted` stops determines the result
/// of `player_insert`: an entry of the same identity there absorbs the
/// record, anything else means the record goes in at that position.
pub proof fn lemma_player_insert_at(s: Seq<PlayerV>, q: PlayerV, i: int)
    requires
        0 <= i <= s.len(),
        forall|j: int| 0 <= j < i ==> player_lt(#[trigger] s[j], q),
        i < s.len() ==> !player_lt(s[i], q),
    ensures
        i < s.len() && same_key(s[i], q) ==> player_insert(s, q) == s,
        !(i < s.len() && same_key(s[i], q))
            ==> player_insert(s, q) == s.take(i) + seq![q] + s.skip(i),
    decreases i,
{
    if i == 0 {
        if s.len() == 0 {
            assert(player_insert(s, q) =~= s.take(0) + seq![q] + s.skip(0));
        } else if same_key(s[0], q) {
            lemma_player_lt_total(s[0], q, q);
        } else {
            assert(!player_lt(s[0], q));
            assert(player_insert(s, q) == seq![q] + s);
            assert(player_insert(s, q) =~= s.take(0) + seq![q] + s.skip(0));
        }
    } else {
        let t = s.drop_first();
        assert(player_lt(s[0], q));
        assert(!same_key(s[0], q)) by {
            lemma_player_lt_total(s[0], q, q);
        }
        assert(forall|j: int| 0 <= j < i - 1 ==> t[j] == s[j + 1] && player_lt(#[trigger] t[j], q));
        assert(i - 1 < t.len() ==> t[i - 1] == s[i]);
        lemma_player_insert_at(t, q, i - 1);
        assert(player_insert(s, q) == seq![s[0]] + player_insert(t, q));
        if i < s.len() && same_key(s[i], q) {
            assert(player_insert(t, q) == t);
            assert(seq![s[0]] + t =~= s);
        } else {
            assert(player_insert(t, q) == t.take(i - 1) + seq![q] + t.skip(i - 1));
            assert(seq![s[0]] + (t.take(i - 1) + seq![q] + t.skip(i - 1))
                =~= s.take(i) + seq![q] + s.skip(i));
        }
    }
}

/// Inserts a player into an identity-ordered vector, keeping it ordered;
/// an entry of the same identity wins and the incoming record is dropped.
pub fn insert_player_sorted(v: &mut Vec<Player>, q: Player)
    ensures
        view_players(final(v)@) == player_insert(view_players(old(v)@), q@),
{
    let ghost s = view_players(v@);
    let mut i: usize = 0;
    while i < v.len() && player_key_less(&v[i], &q)
        invariant
            0 <= i <= v.len(),
            s == view_players(v@),
            forall|j: int| 0 <= j < i ==> player_lt(#[trigger] s[j], q@),
        decreases v.len() - i,
    {
        proof {
            assert(s[i as int] == v@[i as int]@);
        }
        i = i + 1;
    }
    proof {
        if i < v.len() {
            assert(s[i as int] == v@[i as int]@);
        }
        lemma_player_insert_at(s, q@, i as int);
    }
    if i < v.len() && bytes_equal(&v[i].name, &q.name) && v[i].uuid == q.uuid {
        proof {
            assert(same_key(s[i as int], q@));
        }
    } else {
        v.insert(i, q);
        proof {
            assert(view_players(v@) =~= s.take(i as int) + seq![q@] + s.skip(i as int));
        }
    }
}

/// A full copy of a player record, relation set included.
pub fn copy_player_deep(p: &Player) -> (r: Player)
    ensures
        r@ == p@,
{
    Player {
        name: slice_to_vec(p.name.as_slice()),
        uuid: p.uuid,
        servers: slice_to_vec(p.servers.as_slice()),
    }
}

/// Merging one more incoming player is one more take-then-reinsert step.
pub proof fn lemma_merge_players_snoc(s: Seq<PlayerV>, qs: Seq<PlayerV>, q: PlayerV)
    ensures
        merge_players(s, qs.push(q)) == merge_one_player(merge_players(s, qs), q),
    decreases qs.len(),
{
    if qs.len() == 0 {
        assert(qs.push(q)[0] == q);
        assert(qs.push(q).drop_first() =~= Seq::empty());
        assert(merge_players(merge_one_player(s, q), Seq::empty()) == merge_one_player(s, q));
        assert(merge_players(s, qs) == s);
    } else {
        assert(qs.push(q)[0] == qs[0]);
        assert(qs.push(q).drop_first() =~= qs.drop_first().push(q));
        lemma_merge_players_snoc(merge_one_player(s, qs[0]), qs.drop_first(), q);
    }
}

/// Compares two players in identity order.
pub fn player_key_less(a: &Player, b: &Player) -> (r: bool)
    ensures
        r == player_lt(a@, b@),
{
    if bytes_less(&a.name, &b.name) {
        true
    } else if bytes_equal(&a.name, &b.name) {
        a.uuid < b.uuid
    } else {
        false
    }
}

/// Compares two byte strings in lexicographic order.
pub fn bytes_less(a: &Vec<u8>, b: &Vec<u8>) -> (r: bool)
    ensures
        r == bytes_lt(a@, b@),
{
    let mut i: usize = 0;
    proof {
        assert(a@.skip(0) =~= a@);
        assert(b@.skip(0) =~= b@);
    }
    while i < a.len() && i < b.len()
        invariant
            i <= a.len(),
            i <= b.len(),
            bytes_lt(a@, b@) == bytes_lt(a@.skip(i as int), b@.skip(i as int)),
        decreases a.len() - i,
    {
        proof {
            assert(a@.skip(i as int)[0] == a@[i as int]);
            assert(b@.skip(i as int)[0] == b@[i as int]);
        }
        if a[i] < b[i] {
            return true;
        }
        if a[i] > b[i] {
            return false;
        }
        proof {
            assert(a@.skip(i + 1) =~= a@.skip(i as int).drop_first());
            assert(b@.skip(i + 1) =~= b@.skip(i as int).drop_first());
        }
        i = i + 1;
    }
    i == a.len() && i < b.len()
}

/// Tests two byte strings for equality.
pub fn bytes_equal(a: &Vec<u8>, b: &Vec<u8>) -> (r: bool)
    ensures
        r == (a@ == b@),
{
    if a.len() != b.len() {
        proof {
            assert(a@ != b@);
        }
        return false;
    }
    let mut i: usize = 0;
    while i < a.len()
        invariant
            i <= a.len(),
            a@.len() == b@.len(),
            forall|j: int| 0 <= j < i ==> a@[j] == b@[j],
        decreases a.len() - i,
    {
        if a[i] != b[i] {
            return false;
        }
        i = i + 1;
    }
    proof {
        assert(a@ =~= b@);
    }
    true
}

/// Finds the entry with the given identity in a player list.
#[verifier::loop_isolation(false)]
pub fn find_player_index(list: &Vec<Player>, name: &Vec<u8>, id: u128) -> (r: Option<usize>)
    ensures
        ({
            let i = player_index_of(view_players(list@), name@, id);
            match r {
                Some(k) => i == k && k < list@.len(),
                None => i < 0,
            }
        }),
{
    proof {
        lemma_player_index_of(view_players(list@), name@, id);
    }
    let mut k: usize = 0;
    while k < list.len()
        invariant
            k <= list.len(),
            forall|j: int| 0 <= j < k
                ==> !(view_players(list@)[j].name == name@
                    && (#[trigger] view_players(list@)[j]).id == id),
        decreases list.len() - k,
    {
        if bytes_equal(&list[k].name, name) && list[k].uuid == id {
            proof {
                assert(view_players(list@)[k as int].name == name@);
            }
            return Some(k);
        }
        proof {
            assert(view_players(list@)[k as int] == list@[k as int]@);
        }
        k = k + 1;
    }
    None
}

/// The list of player views behind a list of player records.
pub open spec fn view_players(s: Seq<Player>) -> Seq<PlayerV> {
    s.map_values(|p: Player| p@)
}

impl Clone for Player {
    /// An identity clone, as the merge loop copies records: the name and
    /// id carry over, the relation set starts empty.
    fn clone(&self) -> (r: Self)
        ensures
            r@.name == self@.name,
            r@.id == self@.id,
            r@.servers == Seq::<NetAddress>::empty(),
    {
        Player { name: slice_to_vec(self.name.as_slice()), uuid: self.uuid, servers: Vec::new() }
    }
}

impl PartialEq for Player {
    /// Identity equality: name and id; the relation set is not part of it.
    fn eq(&self, other: &Self) -> (r: bool) {
        bytes_equal(&self.name, &other.name) && self.uuid == other.uuid
    }
}

impl vstd::std_specs::cmp::PartialEqSpecImpl for Player {
    open spec fn obeys_eq_spec() -> bool {
        true
    }

    open spec fn eq_spec(&self, other: &Self) -> bool {
        self.name@ == other.name@ && self.uuid == other.uuid
    }
}

impl Eq for Player {}

impl PartialOrd for Player {
    /// Identity order: name first, then id, as the ordered containers
    /// that hold players sort them.
    fn partial_cmp(&self, other: &Self) -> (r: Option<core::cmp::Ordering>) {
        proof {
            lemma_bytes_lt_asym(self.name@, other.name@);
        }
        if bytes_less(&self.name, &other.name) {
            Some(core::cmp::Ordering::Less)
        } else if bytes_equal(&self.name, &other.name) {
            if self.uuid < other.uuid {
                Some(core::cmp::Ordering::Less)
            } else if self.uuid == other.uuid {
                Some(core::cmp::Ordering::Equal)
            } else {
                Some(core::cmp::Ordering::Greater)
            }
        } else {
            Some(core::cmp::Ordering::Greater)
        }
    }
}

impl vstd::std_specs::cmp::PartialOrdSpecImpl for Player {
    open spec fn obeys_partial_cmp_spec() -> bool {
        true
    }

    open spec fn partial_cmp_spec(&self, other: &Self) -> Option<core::cmp::Ordering> {
        if player_lt(self@, other@) {
            Some(core::cmp::Ordering::Less)
        } else if same_key(self@, other@) {
            Some(core::cmp::Ordering::Equal)
        } else {
            Some(core::cmp::Ordering::Greater)
        }
    }
}

impl Player {
    /// Merge: the deep union of the other record's relation set into this
    /// one. Identity is untouched and no relation of either side is lost.
    pub fn update(&mut self, other: &Player)
        ensures
            final(self)@.name == old(self)@.name,
            final(self)@.id == old(self)@.id,
            final(self)@.servers == union_addrs(old(self)@.servers, other@.servers),
    {
        let mut i: usize = 0;
        proof {
            assert(other.servers@.take(0) =~= Seq::empty());
            assert(union_addrs(old(self).servers@, Seq::empty()) == old(self).servers@);
        }
        while i < other.servers.len()
            invariant
                i <= other.servers.len(),
                self.name@ == old(self).name@,
                self.uuid == old(self).uuid,
                self.servers@ == union_addrs(old(self).servers@, other.servers@.take(i as int)),
            decreases other.servers.len() - i,
        {
            proof {
                assert(other.servers@.take(i + 1)
                    =~= other.servers@.take(i as int).push(other.servers@[i as int]));
                lemma_union_addrs_snoc(old(self).servers@, other.servers@.take(i as int),
                    other.servers@[i as int]);
            }
            let a = other.servers[i];
            insert_addr_sorted(&mut self.servers, a);
            i = i + 1;
        }
        proof {
            assert(other.servers@.take(other.servers@.len() as int) =~= other.servers@);
        }
    }
}

/// The big-endian bytes of a value, over a fixed width.
pub open spec fn be_bytes(n: nat, len: nat) -> Seq<u8>
    decreases len,
{
    if len == 0 {
        Seq::empty()
    } else {
        be_bytes(n / 256, (len - 1) as nat) + seq![(n % 256) as u8]
    }
}

/// The value read back from big-endian bytes onto an accumulator.
pub open spec fn be_val(s: Seq<u8>, acc: nat) -> nat
    decreases s.len(),
{
    if s.len() == 0 {
        acc
    } else {
        be_val(s.drop_first(), (acc * 256 + s[0]) as nat)
    }
}

/// Splitting a big-endian read at a sequence boundary.
proof fn lemma_be_val_append(a: Seq<u8>, b: Seq<u8>, acc: nat)
    ensures
        be_val(a + b, acc) == be_val(b, be_val(a, acc)),
    decreases a.len(),
{
    if a.len() == 0 {
        assert(a + b =~= b);
    } else {
        assert((a + b)[0] == a[0]);
        assert((a + b).drop_first() =~= a.drop_first() + b);
        lemma_be_val_append(a.drop_first(), b, (acc * 256 + a[0]) as nat);
    }
}

/// Reading the big-endian bytes of `n` onto `acc` gives `acc` shifted left
/// by the width, plus `n`.
pub proof fn lemma_be_val_of_be_bytes(n: nat, len: nat, acc: nat)
    requires
        n < pow2(8 * len),
    ensures
        be_val(be_bytes(n, len), acc) == acc * pow2(8 * len) + n,
    decreases len,
{
    lemma2_to64();
    if len == 0 {
        assert(acc * 1 == acc) by (nonlinear_arith);
    } else {
        let a = be_bytes(n / 256, (len - 1) as nat);
        let last = seq![(n % 256) as u8];
        lemma_be_val_append(a, last, acc);
        assert(n / 256 < pow2(8 * (len - 1) as nat)) by {
            lemma_pow2_adds(8 * (len - 1) as nat, 8);
            lemma2_to64();
            assert(pow2(8) == 256);
            assert(8 * len == 8 * (len - 1) + 8);
            lemma_fundamental_div_mod(n as int, 256);
            if n / 256 >= pow2(8 * (len - 1) as nat) {
                assert(256 * (n / 256) >= 256 * pow2(8 * (len - 1) as nat))
                    by (nonlinear_arith)
                    requires n / 256 >= pow2(8 * (len - 1) as nat),
                ;
            }
        }
        lemma_be_val_of_be_bytes(n / 256, (len - 1) as nat, acc);
        let va = be_val(a, acc);
        let e = last.drop_first();
        assert(e =~= Seq::empty());
        let accl = (va * 256 + (n % 256)) as nat;
        assert(be_val(e, accl) == accl);
        assert(last[0] == n % 256);
        assert(be_val(last, va) == va * 256 + n % 256);
        assert((acc * pow2(8 * (len - 1) as nat) + n / 256) * 256
            == acc * (pow2(8 * (len - 1) as nat) * 256) + (n / 256) * 256) by (nonlinear_arith);
        assert(pow2(8 * (len - 1) as nat) * 256 == pow2(8 * len)) by {
            lemma_pow2_adds(8 * (len - 1) as nat, 8);
            lemma2_to64();
            assert(8 * len == 8 * (len - 1) + 8);
        }
        assert((n / 256) * 256 + n % 256 == n) by {
            lemma_fundamental_div_mod(n as int, 256);
        }
    }
}

/// A value read from `len` bytes stays below `pow2(8 * len)` shifted onto
/// the accumulator.
proof fn lemma_be_val_bound(s: Seq<u8>, acc: nat)
    ensures
        be_val(s, acc) < (acc + 1) * pow2(8 * s.len()),
    decreases s.len(),
{
    lemma2_to64();
    if s.len() == 0 {
        assert((acc + 1) * 1 == acc + 1) by (nonlinear_arith);
    } else {
        let acc2 = (acc * 256 + s[0]) as nat;
        lemma_be_val_bound(s.drop_first(), acc2);
        assert(8 * s.len() == 8 * (s.len() - 1) + 8);
        lemma_pow2_adds(8 * (s.len() - 1) as nat, 8);
        assert(pow2(8) == 256);
        assert(acc2 + 1 <= (acc + 1) * 256);
        assert((acc2 + 1) * pow2(8 * (s.len() - 1) as nat)
            <= (acc + 1) * (pow2(8 * (s.len() - 1) as nat) * 256)) by (nonlinear_arith)
            requires acc2 + 1 <= (acc + 1) * 256,
        ;
    }
}

/// Appends the `len`-byte big-endian form of a value to a byte buffer.
pub fn push_be_bytes(out: &mut Vec<u8>, n: u128, len: usize)
    ensures
        final(out)@ == old(out)@ + be_bytes(n as nat, len as nat),
    decreases len,
{
    if len == 0 {
        proof {
            assert(out@ =~= old(out)@ + be_bytes(n as nat, 0));
        }
    } else {
        push_be_bytes(out, n / 256, len - 1);
        out.push((n % 256) as u8);
        proof {
            assert(out@ =~= old(out)@ + be_bytes(n as nat, len as nat));
        }
    }
}

/// Reads a 16-byte big-endian value starting at `pos`.
pub fn read_be_u128(buf: &[u8], pos: usize) -> (r: u128)
    requires
        pos + 16 <= buf@.len(),
    ensures
        r as nat == be_val(buf@.subrange(pos as int, pos + 16), 0),
{
    let ghost s = buf@.subrange(pos as int, pos + 16);
    let total = buf.len();
    let mut acc: u128 = 0;
    let mut i: usize = 0;
    proof {
        assert(s.take(0) =~= Seq::empty());
        lemma2_to64();
    }
    while i < 16
        invariant
            i <= 16,
            pos + 16 <= total,
            total == buf@.len(),
            s == buf@.subrange(pos as int, pos + 16),
            acc as nat == be_val(s.take(i as int), 0),
            acc < pow2(8 * i as nat),
        decreases 16 - i,
    {
        proof {
            assert(s.take(i + 1) =~= s.take(i as int) + seq![s[i as int]]);
            lemma_be_val_append(s.take(i as int), seq![s[i as int]], 0);
            let prev = be_val(s.take(i as int), 0);
            let single = seq![s[i as int]];
            let e = single.drop_first();
            assert(e =~= Seq::empty());
            let accl = (prev * 256 + single[0]) as nat;
            assert(be_val(e, accl) == accl);
            assert(be_val(single, prev) == prev * 256 + s[i as int]);
            assert(acc * 256 + 255 < pow2(8 * (i + 1) as nat)) by {
                lemma_pow2_adds(8 * i as nat, 8);
                lemma2_to64();
                assert(acc * 256 + 256 <= pow2(8 * i as nat) * 256) by (nonlinear_arith)
                    requires acc < pow2(8 * i as nat),
                ;
            }
            if i < 15 {
                lemma_pow2_strictly_increases(8 * (i + 1) as nat, 128);
            }
            lemma_pow2_128();
        }
        let b = buf[pos + i];
        proof {
            assert(s[i as int] == buf@[pos + i]);
        }
        acc = acc * 256 + b as u128;
        i = i + 1;
    }
    proof {
        assert(s.take(16) =~= s);
    }
    acc
}

/// The pointer form of a player: varint name length, the name bytes, then
/// the 16-byte big-endian id.
pub open spec fn player_ptr_enc(name: Seq<u8>, id: u128) -> Seq<u8> {
    spec_varint(name.len()) + name + be_bytes(id as nat, 16)
}

/// The full form of a player: the 16-byte id, a varint relation count,
/// then the pointer form of every related server. The name is not part of
/// the full form; only the pointer form carries it.
pub open spec fn player_full_enc(p: PlayerV) -> Seq<u8> {
    be_bytes(p.id as nat, 16) + spec_varint(p.servers.len()) + cat_addr_ptrs(p.servers)
}

/// The parse of a player pointer at the front of a buffer.
pub open spec fn spec_parse_player_ptr(s: Seq<u8>) -> Result<(PlayerV, nat), DecodeError> {
    match spec_vdec(s, 0, 0) {
        None => Err(DecodeError::BadVarint),
        Some((ln, c)) => {
            if c + ln > s.len() {
                Err(DecodeError::Truncated)
            } else {
                let name = s.subrange(c as int, (c + ln) as int);
                if !name_ascii(name) {
                    Err(DecodeError::InvalidName)
                } else if c + ln + 16 > s.len() {
                    Err(DecodeError::Truncated)
                } else {
                    let id = be_val(s.subrange((c + ln) as int, (c + ln + 16) as int), 0);
                    Ok((PlayerV { name, id: id as u128, servers: Seq::empty() },
                        (c + ln + 16) as nat))
                }
            }
        },
    }
}

/// The parse of a player in full form: the id, a count, and that many
/// server pointers folded into an ordered address list. The name comes
/// back empty, as the full form does not carry it.
pub open spec fn spec_parse_player_full(s: Seq<u8>) -> Result<(PlayerV, nat), DecodeError> {
    if s.len() < 16 {
        Err(DecodeError::Truncated)
    } else {
        let id = be_val(s.subrange(0, 16), 0);
        match spec_vdec(s.skip(16), 0, 0) {
            None => Err(DecodeError::BadVarint),
            Some((n, c)) => {
                match spec_parse_addr_ptrs(s.skip(16 + c as int), n as nat, Seq::empty()) {
                    Err(e) => Err(e),
                    Ok((servers, c2)) => Ok((
                        PlayerV { name: Seq::empty(), id: id as u128, servers },
                        (16 + c + c2) as nat,
                    )),
                }
            },
        }
    }
}

impl Player {
    /// Encodes the pointer form of this player.
    pub fn serialize_pointer(&self) -> (r: Vec<u8>)
        ensures
            r@ == player_ptr_enc(self@.name, self@.id),
    {
        let mut res: Vec<u8> = Vec::new();
        write_varint(&mut res, self.name.len() as u64);
        let mut name_bytes = slice_to_vec(self.name.as_slice());
        res.append(&mut name_bytes);
        push_be_bytes(&mut res, self.uuid, 16);
        proof {
            assert(res@ =~= player_ptr_enc(self@.name, self@.id));
        }
        res
    }

    /// Encodes the full form of this player. Only IPv4 relations have a
    /// textual pointer form; the index never holds any other kind.
    pub fn serialize(&self) -> (r: Vec<u8>)
        requires
            addrs_v4(self@.servers),
        ensures
            r@ == player_full_enc(self@),
    {
        let mut res: Vec<u8> = Vec::new();
        push_be_bytes(&mut res, self.uuid, 16);
        write_varint(&mut res, self.servers.len() as u64);
        let ghost head = be_bytes(self@.id as nat, 16) + spec_varint(self.servers@.len());
        let mut i: usize = 0;
        proof {
            assert(self.servers@.take(0) =~= Seq::empty());
            assert(res@ =~= head + cat_addr_ptrs(Seq::empty()));
        }
        while i < self.servers.len()
            invariant
                i <= self.servers.len(),
                addrs_v4(self.servers@),
                head == be_bytes(self@.id as nat, 16) + spec_varint(self.servers@.len()),
                res@ == head + cat_addr_ptrs(self.servers@.take(i as int)),
            decreases self.servers.len() - i,
        {
            proof {
                assert(self.servers@.take(i + 1)
                    =~= self.servers@.take(i as int).push(self.servers@[i as int]));
                lemma_cat_addr_ptrs_snoc(self.servers@.take(i as int), self.servers@[i as int]);
                assert(self.servers@[i as int].is_v4());
            }
            write_addr_ptr(&mut res, &self.servers[i]);
            proof {
                assert(res@ =~= head + cat_addr_ptrs(self.servers@.take(i + 1)));
            }
            i = i + 1;
        }
        proof {
            assert(self.servers@.take(self.servers@.len() as int) =~= self.servers@);
            assert(res@ =~= player_full_enc(self@));
        }
        res
    }

    /// Decodes a player from its pointer form at the front of the buffer;
    /// bytes after it are ignored. The relation set comes back empty.
    pub fn deserialize_pointer(buf: &[u8]) -> (r: Result<Player, DecodeError>)
        ensures
            ({
                let d = spec_parse_player_ptr(buf@);
                match r {
                    Ok(p) => d matches Ok(q) && q.0 == p@,
                    Err(e) => d == Err::<(PlayerV, nat), _>(e),
                }
            }),
    {
        proof {
            assert(buf@.skip(0) =~= buf@);
        }
        match Self::parse_pointer(buf, 0) {
            Ok((p, _)) => Ok(p),
            Err(e) => Err(e),
        }
    }

    /// Reads one player pointer starting at `pos`; on success returns the
    /// player and the position of the first byte after it.
    #[verifier::loop_isolation(false)]
    pub fn parse_pointer(buf: &[u8], pos: usize) -> (r: Result<(Player, usize), DecodeError>)
        requires
            pos <= buf@.len(),
        ensures
            ({
                let d = spec_parse_player_ptr(buf@.skip(pos as int));
                match r {
                    Ok(p) => d matches Ok(q) && q.0 == p.0@ && q.1 == p.1 - pos
                        && pos < p.1 <= buf@.len(),
                    Err(e) => d == Err::<(PlayerV, nat), _>(e),
                }
            }),
    {
        let ghost t = buf@.skip(pos as int);
        match read_varint(buf, pos) {
            None => Err(DecodeError::BadVarint),
            Some((ln, p2)) => {
                if ln > (buf.len() - p2) as u64 {
                    proof {
                        assert(t.len() - (p2 - pos) == buf@.len() - p2);
                    }
                    Err(DecodeError::Truncated)
                } else {
                    let name_end = p2 + ln as usize;
                    let ghost name = t.subrange(p2 - pos, name_end - pos);
                    proof {
                        assert(name =~= buf@.subrange(p2 as int, name_end as int));
                    }
                    let mut j = p2;
                    while j < name_end
                        invariant
                            p2 <= j <= name_end <= buf@.len(),
                            name == buf@.subrange(p2 as int, name_end as int),
                            forall|k: int| 0 <= k < j - p2 ==> name[k] < 128,
                        decreases name_end - j,
                    {
                        if buf[j] >= 128 {
                            proof {
                                assert(name[j - p2] == buf@[j as int]);
                                assert(!name_ascii(name));
                            }
                            return Err(DecodeError::InvalidName);
                        }
                        j = j + 1;
                    }
                    proof {
                        assert(name_ascii(name));
                    }
                    if (buf.len() - name_end) < 16 {
                        proof {
                            assert(t.len() - (name_end - pos) == buf@.len() - name_end);
                        }
                        Err(DecodeError::Truncated)
                    } else {
                        let name_vec = slice_to_vec(slice_subrange(buf, p2, name_end));
                        let id = read_be_u128(buf, name_end);
                        proof {
                            assert(t.subrange(name_end - pos, name_end - pos + 16)
                                =~= buf@.subrange(name_end as int, name_end + 16));
                        }
                        Ok((Player { name: name_vec, uuid: id, servers: Vec::new() },
                            name_end + 16))
                    }
                }
            },
        }
    }

    /// Decodes a player from its full form at the front of the buffer;
    /// bytes after it are ignored. The name comes back empty, as the full
    /// form does not carry it.
    pub fn deserialize(buf: &[u8]) -> (r: Result<Player, DecodeError>)
        ensures
            ({
                let d = spec_parse_player_full(buf@);
                match r {
                    Ok(p) => d matches Ok(q) && q.0 == p@,
                    Err(e) => d == Err::<(PlayerV, nat), _>(e),
                }
            }),
    {
        if buf.len() < 16 {
            return Err(DecodeError::Truncated);
        }
        let id = read_be_u128(buf, 0);
        match read_varint(buf, 16) {
            None => Err(DecodeError::BadVarint),
            Some((n, p2)) => {
                proof {
                    assert(buf@.skip(16).skip(p2 - 16) =~= buf@.skip(p2 as int));
                }
                match parse_addr_ptrs(buf, p2, n) {
                    Err(e) => Err(e),
                    Ok((servers, _)) => {
                        Ok(Player { name: Vec::new(), uuid: id, servers })
                    },
                }
            },
        }
    }
}

/// Round trip of the pointer form: decoding what was encoded yields the
/// identity back, with an empty relation set, and consumes the encoding.
pub proof fn lemma_player_ptr_round_trip(name: Seq<u8>, id: u128, rest: Seq<u8>)
    requires
        name_ascii(name),
        name.len() <= u64::MAX,
    ensures
        spec_parse_player_ptr(player_ptr_enc(name, id) + rest)
            == Ok::<_, DecodeError>((
                PlayerV { name, id, servers: Seq::empty() },
                player_ptr_enc(name, id).len(),
            )),
{
    let s = player_ptr_enc(name, id) + rest;
    let idb = be_bytes(id as nat, 16);
    assert(idb.len() == 16) by {
        lemma_be_bytes_len(id as nat, 16);
    }
    assert(s =~= spec_varint(name.len() as u64 as nat) + (name + idb + rest));
    lemma_varint_round_trip(name.len() as u64, name + idb + rest);
    let c = spec_varint(name.len()).len();
    assert(spec_vdec(s, 0, 0) == Some((name.len() as u64, c)));
    assert(s.subrange(c as int, (c + name.len()) as int) =~= name);
    assert(s.subrange((c + name.len()) as int, (c + name.len() + 16) as int) =~= idb);
    lemma_pow2_128();
    lemma_be_val_of_be_bytes(id as nat, 16, 0);
    assert(be_val(idb, 0) == 0 * pow2(128) + id);
}

/// The width of a big-endian rendering is its requested width.
pub proof fn lemma_be_bytes_len(n: nat, len: nat)
    ensures
        be_bytes(n, len).len() == len,
    decreases len,
{
    if len > 0 {
        lemma_be_bytes_len(n / 256, (len - 1) as nat);
    }
}

/// Round trip of the full form: decoding what was encoded yields the id
/// and every related address back; the name is not carried by this form.
#[verifier::rlimit(100)]
#[verifier::spinoff_prover]
pub proof fn lemma_player_full_round_trip(p: PlayerV, rest: Seq<u8>)
    requires
        addrs_v4(p.servers),
        addrs_sorted(p.servers),
        p.servers.len() <= u64::MAX,
    ensures
        spec_parse_player_full(player_full_enc(p) + rest)
            == Ok::<_, DecodeError>((
                PlayerV { name: Seq::empty(), id: p.id, servers: p.servers },
                player_full_enc(p).len(),
            )),
{
    let s = player_full_enc(p) + rest;
    let idb = be_bytes(p.id as nat, 16);
    lemma_be_bytes_len(p.id as nat, 16);
    assert(s.len() >= 16);
    assert(s.subrange(0, 16) =~= idb);
    lemma_pow2_128();
    lemma_be_val_of_be_bytes(p.id as nat, 16, 0);
    assert(be_val(idb, 0) == 0 * pow2(128) + p.id);
    assert(s.skip(16) =~= spec_varint(p.servers.len() as u64 as nat)
        + (cat_addr_ptrs(p.servers) + rest));
    lemma_varint_round_trip(p.servers.len() as u64, cat_addr_ptrs(p.servers) + rest);
    let c = spec_varint(p.servers.len()).len();
    assert(s.skip(16).skip(c as int) =~= cat_addr_ptrs(p.servers) + rest);
    assert(s.skip(16 + c as int) =~= cat_addr_ptrs(p.servers) + rest);
    lemma_addr_ptrs_round_trip(p.servers, rest, Seq::empty());
    assert(union_addrs(Seq::empty(), p.servers) == p.servers) by {
        lemma_union_addrs_rebuild(p.servers);
    }
}

/// Folding a sorted address list into an empty one rebuilds it exactly.
pub proof fn lemma_union_addrs_rebuild(s: Seq<NetAddress>)
    requires
        addrs_sorted(s),
    ensures
        union_addrs(Seq::empty(), s) == s,
{
    let u = union_addrs(Seq::<NetAddress>::empty(), s);
    assert(addrs_sorted(Seq::<NetAddress>::empty()));
    lemma_union_addrs_sorted(Seq::empty(), s);
    assert forall|y: NetAddress| u.contains(y) <==> s.contains(y) by {
        lemma_union_addrs_members(Seq::empty(), s, y);
        if Seq::<NetAddress>::empty().contains(y) {
            let i = choose|i: int| 0 <= i < 0 && Seq::<NetAddress>::empty()[i] == y;
            assert(false);
        }
    }
    lemma_sorted_addrs_canonical(u, s);
}

/// Two sorted address lists with the same members are the same list.
pub proof fn lemma_sorted_addrs_canonical(s: Seq<NetAddress>, t: Seq<NetAddress>)
    requires
        addrs_sorted(s),
        addrs_sorted(t),
        forall|y: NetAddress| s.contains(y) <==> t.contains(y),
    ensures
        s == t,
    decreases s.len(),
{
    if s.len() == 0 {
        if t.len() > 0 {
            assert(t.contains(t[0]));
            assert(s.contains(t[0]));
            assert(false);
        }
        assert(s =~= t);
    } else {
        assert(s.contains(s[0]));
        assert(t.contains(s[0]));
        assert(t.len() > 0);
        assert(t.contains(t[0]));
        assert(s.contains(t[0]));
        let i = choose|i: int| 0 <= i < t.len() && t[i] == s[0];
        let j = choose|j: int| 0 <= j < s.len() && s[j] == t[0];
        assert(s[0] == t[0]) by {
            crate::net::lemma_addr_lt_total(s[0], t[0], s[0]);
            if i > 0 {
                assert(crate::net::addr_lt(t[0], t[i]));
            }
            if j > 0 {
                assert(crate::net::addr_lt(s[0], s[j]));
            }
        }
        let st = s.drop_first();
        let tt = t.drop_first();
        assert(forall|k: int| 0 <= k < st.len() ==> #[trigger] st[k] == s[k + 1]);
        assert(forall|k: int| 0 <= k < tt.len() ==> #[trigger] tt[k] == t[k + 1]);
        assert forall|y: NetAddress| st.contains(y) <==> tt.contains(y) by {
            if st.contains(y) {
                let k = choose|k: int| 0 <= k < st.len() && st[k] == y;
                assert(s[k + 1] == y);
                assert(s.contains(y));
                assert(t.contains(y));
                let m = choose|m: int| 0 <= m < t.len() && t[m] == y;
                assert(crate::net::addr_lt(s[0], s[k + 1]));
                crate::net::lemma_addr_lt_total(t[0], y, y);
                assert(m != 0);
                assert(tt[m - 1] == y);
            }
            if tt.contains(y) {
                let k = choose|k: int| 0 <= k < tt.len() && tt[k] == y;
                assert(t[k + 1] == y);
                assert(t.contains(y));
                assert(s.contains(y));
                let m = choose|m: int| 0 <= m < s.len() && s[m] == y;
                assert(crate::net::addr_lt(t[0], t[k + 1]));
                crate::net::lemma_addr_lt_total(s[0], y, y);
                assert(m != 0);
                assert(st[m - 1] == y);
            }
        }
        lemma_sorted_addrs_canonical(st, tt);
        assert forall|k: int| 0 <= k < s.len() implies s[k] == t[k] by {
            if k > 0 {
                assert(st[k - 1] == tt[k - 1]);
            }
        }
        assert(s =~= t);
    }
}

} // verus!
