//! Socket addresses as plain values, their total order, and ordered address
//! lists. Only IPv4 hosts can be indexed; a host of the other kind is carried
//! so that lookups can reject it, as the index does not support IPv6.
use vstd::prelude::*;

verus! {

/// The host part of a socket address.
#[derive(Clone, Copy, PartialEq, Eq, Structural, Debug, Hash)]
pub enum HostAddr {
    /// An IPv4 host, one field per octet in network order.
    V4 { o0: u8, o1: u8, o2: u8, o3: u8 },
    /// An IPv6 host, as the two big-endian halves of its 128-bit value.
    V6 { hi: u64, lo: u64 },
}

/// A socket address: a host and a port.
#[derive(Clone, Copy, PartialEq, Eq, Structural, Debug, Hash)]
pub struct NetAddress {
    pub host: HostAddr,
    pub port: u16,
}

impl NetAddress {
    /// True when the host is IPv4; only such addresses can be indexed.
    pub open spec fn is_v4(self) -> bool {
        self.host is V4
    }
}

/// Strict total order on hosts: every IPv4 host sorts before every IPv6
/// host; within a kind the comparison is numeric, highest octet first.
pub open spec fn host_lt(x: HostAddr, y: HostAddr) -> bool {
    match (x, y) {
        (HostAddr::V4 { o0: a0, o1: a1, o2: a2, o3: a3 },
         HostAddr::V4 { o0: b0, o1: b1, o2: b2, o3: b3 }) => {
            ||| a0 < b0
            ||| (a0 == b0 && a1 < b1)
            ||| (a0 == b0 && a1 == b1 && a2 < b2)
            ||| (a0 == b0 && a1 == b1 && a2 == b2 && a3 < b3)
        },
        (HostAddr::V4 { .. }, HostAddr::V6 { .. }) => true,
        (HostAddr::V6 { .. }, HostAddr::V4 { .. }) => false,
        (HostAddr::V6 { hi: ah, lo: al }, HostAddr::V6 { hi: bh, lo: bl }) => {
            ||| ah < bh
            ||| (ah == bh && al < bl)
        },
    }
}

/// Strict total order on addresses: host first, then port, numeric.
pub open spec fn addr_lt(x: NetAddress, y: NetAddress) -> bool {
    ||| host_lt(x.host, y.host)
    ||| (x.host == y.host && x.port < y.port)
}

/// `addr_lt` is a strict total order: transitive, asymmetric, and any two
/// distinct addresses are comparable.
pub proof fn lemma_addr_lt_total(x: NetAddress, y: NetAddress, z: NetAddress)
    ensures
        addr_lt(x, y) && addr_lt(y, z) ==> addr_lt(x, z),
        !(addr_lt(x, y) && addr_lt(y, x)),
        addr_lt(x, y) || addr_lt(y, x) || x == y,
{
}

/// Compares two addresses in the order of `addr_lt`.
pub fn addr_less(x: &NetAddress, y: &NetAddress) -> (r: bool)
    ensures
        r == addr_lt(*x, *y),
{
    match (x.host, y.host) {
        (HostAddr::V4 { o0: a0, o1: a1, o2: a2, o3: a3 },
         HostAddr::V4 { o0: b0, o1: b1, o2: b2, o3: b3 }) => {
            if a0 != b0 {
                a0 < b0
            } else if a1 != b1 {
                a1 < b1
            } else if a2 != b2 {
                a2 < b2
            } else if a3 != b3 {
                a3 < b3
            } else {
                x.port < y.port
            }
        },
        (HostAddr::V4 { .. }, HostAddr::V6 { .. }) => true,
        (HostAddr::V6 { .. }, HostAddr::V4 { .. }) => false,
        (HostAddr::V6 { hi: ah, lo: al }, HostAddr::V6 { hi: bh, lo: bl }) => {
            if ah != bh {
                ah < bh
            } else if al != bl {
                al < bl
            } else {
                x.port < y.port
            }
        },
    }
}

/// Tests two addresses for equality.
pub fn addr_same(x: &NetAddress, y: &NetAddress) -> (r: bool)
    ensures
        r == (*x == *y),
{
    *x == *y
}

/// An address list is sorted when it is strictly ascending in `addr_lt`;
/// strictness makes every entry unique, so the list models an ordered set.
pub open spec fn addrs_sorted(s: Seq<NetAddress>) -> bool {
    forall|i: int, j: int| 0 <= i < j < s.len() ==> addr_lt(s[i], s[j])
}

/// Insertion of an address into an ordered address list: entries below the
/// new one keep their place, an equal entry absorbs it, and otherwise it is
/// placed before the first larger entry.
pub open spec fn addr_insert(s: Seq<NetAddress>, x: NetAddress) -> Seq<NetAddress>
    decreases s.len(),
{
    if s.len() == 0 {
        seq![x]
    } else if addr_lt(s[0], x) {
        seq![s[0]] + addr_insert(s.drop_first(), x)
    } else if s[0] == x {
        s
    } else {
        seq![x] + s
    }
}

/// The members of `addr_insert` are the old members plus the new address.
pub proof fn lemma_addr_insert_members(s: Seq<NetAddress>, x: NetAddress, y: NetAddress)
    ensures
        addr_insert(s, x).contains(y) <==> (s.contains(y) || y == x),
    decreases s.len(),
{
    if s.len() == 0 {
        assert(addr_insert(s, x) == seq![x]);
        assert(addr_insert(s, x)[0] == x);
        assert(!s.contains(y));
        assert(addr_insert(s, x).contains(y) <==> y == x) by {
            if addr_insert(s, x).contains(y) {
                assert(addr_insert(s, x)[0] == y);
            }
            if y == x {
                assert(addr_insert(s, x)[0] == y);
            }
        }
    } else if addr_lt(s[0], x) {
        let t = s.drop_first();
        lemma_addr_insert_members(t, x, y);
        assert(addr_insert(s, x) == seq![s[0]] + addr_insert(t, x));
        assert(s == seq![s[0]] + t);
        lemma_cons_contains(s[0], addr_insert(t, x), y);
        lemma_cons_contains(s[0], t, y);
    } else if s[0] == x {
        assert(s.contains(x)) by {
            assert(s[0] == x);
        }
        if s.contains(y) || y == x {
            assert(s.contains(y));
        }
    } else {
        assert(addr_insert(s, x) == seq![x] + s);
        lemma_cons_contains(x, s, y);
    }
}

/// Membership in a list with one entry placed in front.
proof fn lemma_cons_contains(h: NetAddress, t: Seq<NetAddress>, y: NetAddress)
    ensures
        (seq![h] + t).contains(y) <==> (y == h || t.contains(y)),
{
    let s = seq![h] + t;
    if t.contains(y) {
        let i = choose|i: int| 0 <= i < t.len() && t[i] == y;
        assert(s[i + 1] == y);
    }
    if y == h {
        assert(s[0] == y);
    }
    if s.contains(y) {
        let i = choose|i: int| 0 <= i < s.len() && s[i] == y;
        if i > 0 {
            assert(t[i - 1] == y);
        }
    }
}

/// Inserting into a sorted list keeps it sorted, and an address already
/// present leaves the list unchanged.
pub proof fn lemma_addr_insert_sorted(s: Seq<NetAddress>, x: NetAddress)
    requires
        addrs_sorted(s),
    ensures
        addrs_sorted(addr_insert(s, x)),
        s.contains(x) ==> addr_insert(s, x) == s,
    decreases s.len(),
{
    let r = addr_insert(s, x);
    if s.len() == 0 {
        assert(addrs_sorted(r));
    } else if addr_lt(s[0], x) {
        let t = s.drop_first();
        assert(addrs_sorted(t)) by {
            assert(forall|i: int, j: int| 0 <= i < j < t.len()
                ==> t[i] == s[i + 1] && t[j] == s[j + 1]);
        }
        lemma_addr_insert_sorted(t, x);
        assert(r == seq![s[0]] + addr_insert(t, x));
        assert forall|i: int, j: int| 0 <= i < j < r.len() implies addr_lt(r[i], r[j]) by {
            if i == 0 {
                let rt = addr_insert(t, x);
                assert(r[j] == rt[j - 1]);
                lemma_addr_insert_members(t, x, rt[j - 1]);
                if rt[j - 1] == x {
                } else {
                    let m = choose|m: int| 0 <= m < t.len() && t[m] == rt[j - 1];
                    assert(t[m] == s[m + 1]);
                    lemma_addr_lt_total(s[0], x, x);
                }
            } else {
                assert(r[i] == addr_insert(t, x)[i - 1]);
                assert(r[j] == addr_insert(t, x)[j - 1]);
            }
        }
        if s.contains(x) {
            assert(t.contains(x)) by {
                let i = choose|i: int| 0 <= i < s.len() && s[i] == x;
                lemma_addr_lt_total(s[0], x, x);
                assert(i != 0);
                assert(t[i - 1] == x);
            }
            assert(r == seq![s[0]] + t);
            assert(r == s);
        }
    } else if s[0] == x {
        assert(r == s);
    } else {
        assert(r == seq![x] + s);
        lemma_addr_lt_total(s[0], x, x);
        assert forall|i: int, j: int| 0 <= i < j < r.len() implies addr_lt(r[i], r[j]) by {
            if i == 0 {
                if j == 1 {
                    lemma_addr_lt_total(x, s[0], s[0]);
                    assert(addr_lt(x, s[0]));
                } else {
                    lemma_addr_lt_total(x, s[0], s[j - 1]);
                }
            }
        }
        if s.contains(x) {
            let i = choose|i: int| 0 <= i < s.len() && s[i] == x;
            if i > 0 {
                assert(addr_lt(s[0], s[i]));
            }
            assert(false);
        }
    }
}

/// Inserts an address into a sorted vector of addresses, keeping it sorted
/// and dropping the address if an equal one is already present.
pub fn insert_addr_sorted(v: &mut Vec<NetAddress>, x: NetAddress)
    ensures
        final(v)@ == addr_insert(old(v)@, x),
{
    let ghost s = v@;
    let mut i: usize = 0;
    while i < v.len() && addr_less(&v[i], &x)
        invariant
            0 <= i <= v.len(),
            v@ == s,
            forall|j: int| 0 <= j < i ==> addr_lt(s[j], x),
        decreases v.len() - i,
    {
        i = i + 1;
    }
    if i < v.len() && addr_same(&v[i], &x) {
        proof {
            lemma_addr_insert_at(s, x, i as int);
        }
    } else {
        v.insert(i, x);
        proof {
            lemma_addr_insert_at(s, x, i as int);
            assert(v@ == s.take(i as int) + seq![x] + s.skip(i as int)) by {
                assert(v@ =~= s.take(i as int) + seq![x] + s.skip(i as int));
            }
        }
    }
}

/// Where the scan of `insert_addr_sorted` stops determines the result of
/// `addr_insert`: an equal entry there absorbs the address, anything else
/// means the address goes in at that position.
proof fn lemma_addr_insert_at(s: Seq<NetAddress>, x: NetAddress, i: int)
    requires
        0 <= i <= s.len(),
        forall|j: int| 0 <= j < i ==> addr_lt(s[j], x),
        i < s.len() ==> !addr_lt(s[i], x),
    ensures
        i < s.len() && s[i] == x ==> addr_insert(s, x) == s,
        !(i < s.len() && s[i] == x)
            ==> addr_insert(s, x) == s.take(i) + seq![x] + s.skip(i),
    decreases i,
{
    if i == 0 {
        if s.len() == 0 {
            assert(addr_insert(s, x) =~= s.take(0) + seq![x] + s.skip(0));
        } else if s[0] == x {
        } else {
            assert(!addr_lt(s[0], x));
            assert(addr_insert(s, x) == seq![x] + s);
            assert(addr_insert(s, x) =~= s.take(0) + seq![x] + s.skip(0));
        }
    } else {
        let t = s.drop_first();
        assert(addr_lt(s[0], x));
        assert(forall|j: int| 0 <= j < i - 1 ==> t[j] == s[j + 1] && addr_lt(t[j], x));
        assert(i - 1 < t.len() ==> t[i - 1] == s[i]);
        lemma_addr_insert_at(t, x, i - 1);
        assert(addr_insert(s, x) == seq![s[0]] + addr_insert(t, x));
        if i < s.len() && s[i] == x {
            assert(addr_insert(t, x) == t);
            assert(seq![s[0]] + t =~= s);
        } else {
            assert(addr_insert(t, x) == t.take(i - 1) + seq![x] + t.skip(i - 1));
            assert(seq![s[0]] + (t.take(i - 1) + seq![x] + t.skip(i - 1))
                =~= s.take(i) + seq![x] + s.skip(i));
        }
    }
}

/// Folds one address list into another, one ordered insertion at a time;
/// this is the deep union behind the merge operations.
pub open spec fn union_addrs(s: Seq<NetAddress>, t: Seq<NetAddress>) -> Seq<NetAddress>
    decreases t.len(),
{
    if t.len() == 0 {
        s
    } else {
        union_addrs(addr_insert(s, t[0]), t.drop_first())
    }
}

/// The union of two address lists has exactly the members of both, stays
/// sorted when the left side is sorted, and never drops an entry.
pub proof fn lemma_union_addrs_members(s: Seq<NetAddress>, t: Seq<NetAddress>, y: NetAddress)
    requires
        addrs_sorted(s),
    ensures
        addrs_sorted(union_addrs(s, t)),
        union_addrs(s, t).contains(y) <==> (s.contains(y) || t.contains(y)),
    decreases t.len(),
{
    if t.len() == 0 {
    } else {
        lemma_addr_insert_sorted(s, t[0]);
        lemma_addr_insert_members(s, t[0], y);
        lemma_union_addrs_members(addr_insert(s, t[0]), t.drop_first(), y);
        assert(t.contains(y) <==> (y == t[0] || t.drop_first().contains(y))) by {
            assert(t == seq![t[0]] + t.drop_first());
            lemma_cons_contains(t[0], t.drop_first(), y);
        }
    }
}

/// Merge is idempotent on relation sets: unioning the same list into a
/// sorted list twice gives exactly what one union gives. This is the
/// relation-set half of the idempotent-merge law; the merge operations
/// state their effect with `union_addrs`.
pub proof fn lemma_union_addrs_idempotent(s: Seq<NetAddress>, t: Seq<NetAddress>)
    requires
        addrs_sorted(s),
    ensures
        union_addrs(union_addrs(s, t), t) == union_addrs(s, t),
{
    lemma_union_addrs_members_all(s, t);
    lemma_union_addrs_subsumed(s, t, t);
}

/// Unioning in a list whose members are already present changes nothing.
pub proof fn lemma_union_addrs_subsumed(s: Seq<NetAddress>, t: Seq<NetAddress>, u: Seq<NetAddress>)
    requires
        addrs_sorted(s),
        forall|j: int| 0 <= j < u.len() ==> union_addrs(s, t).contains(#[trigger] u[j]),
    ensures
        union_addrs(union_addrs(s, t), u) == union_addrs(s, t),
    decreases u.len(),
{
    if u.len() == 0 {
    } else {
        let base = union_addrs(s, t);
        assert(base.contains(u[0])) by {
            assert(u[0] == u[0 as int]);
        }
        lemma_union_addrs_members(s, t, u[0]);
        lemma_addr_insert_sorted(base, u[0]);
        assert(addr_insert(base, u[0]) == base);
        assert(forall|j: int| 0 <= j < u.drop_first().len()
            ==> u.drop_first()[j] == u[j + 1]);
        lemma_union_addrs_subsumed(s, t, u.drop_first());
    }
}

/// Sortedness of every union with a sorted left side.
pub proof fn lemma_union_addrs_members_all(s: Seq<NetAddress>, t: Seq<NetAddress>)
    requires
        addrs_sorted(s),
    ensures
        addrs_sorted(union_addrs(s, t)),
        forall|j: int| 0 <= j < t.len() ==> union_addrs(s, t).contains(#[trigger] t[j]),
        forall|j: int| 0 <= j < s.len() ==> union_addrs(s, t).contains(#[trigger] s[j]),
    decreases t.len(),
{
    assert forall|j: int| 0 <= j < t.len() implies union_addrs(s, t).contains(#[trigger] t[j]) by {
        lemma_union_addrs_members(s, t, t[j]);
    }
    assert forall|j: int| 0 <= j < s.len() implies union_addrs(s, t).contains(#[trigger] s[j]) by {
        lemma_union_addrs_members(s, t, s[j]);
    }
    lemma_union_addrs_sorted(s, t);
}

/// Folding one more address onto a union is one more ordered insertion.
pub proof fn lemma_union_addrs_snoc(s: Seq<NetAddress>, u: Seq<NetAddress>, x: NetAddress)
    ensures
        union_addrs(s, u.push(x)) == addr_insert(union_addrs(s, u), x),
    decreases u.len(),
{
    if u.len() == 0 {
        assert(u.push(x)[0] == x);
        assert(u.push(x).drop_first() =~= Seq::empty());
        assert(union_addrs(addr_insert(s, x), Seq::empty()) == addr_insert(s, x));
        assert(union_addrs(s, u) == s);
    } else {
        assert(u.push(x)[0] == u[0]);
        assert(u.push(x).drop_first() =~= u.drop_first().push(x));
        lemma_union_addrs_snoc(addr_insert(s, u[0]), u.drop_first(), x);
    }
}

/// A union with a sorted left side is sorted.
pub proof fn lemma_union_addrs_sorted(s: Seq<NetAddress>, t: Seq<NetAddress>)
    requires
        addrs_sorted(s),
    ensures
        addrs_sorted(union_addrs(s, t)),
    decreases t.len(),
{
    if t.len() > 0 {
        lemma_addr_insert_sorted(s, t[0]);
        lemma_union_addrs_sorted(addr_insert(s, t[0]), t.drop_first());
    }
}

} // verus!
