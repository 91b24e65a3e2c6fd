//! Decimal text for addresses. A server's pointer form stores its socket
//! address as text, `o0.o1.o2.o3:port` with plain decimal numbers, so both
//! directions are needed: rendering a number or an address into bytes, and
//! parsing them back, with the round trip proved.
use vstd::prelude::*;
use crate::net::{HostAddr, NetAddress, addr_insert, union_addrs, insert_addr_sorted};
use crate::varint::{spec_varint, spec_vdec, write_varint, read_varint, lemma_varint_round_trip};
use crate::DecodeError;

verus! {

/// The decimal digits of a value, most significant first, no leading zeros.
pub open spec fn dec_digits(n: nat) -> Seq<u8>
    decreases n,
{
    if n < 10 {
        seq![(48 + n) as u8]
    } else {
        dec_digits(n / 10) + seq![(48 + n % 10) as u8]
    }
}

/// The textual form of an IPv4 socket address: the four octets in decimal
/// joined by dots, then a colon and the port in decimal.
pub open spec fn addr_text(a: NetAddress) -> Seq<u8> {
    match a.host {
        HostAddr::V4 { o0, o1, o2, o3 } =>
            dec_digits(o0 as nat) + seq![46u8]
                + dec_digits(o1 as nat) + seq![46u8]
                + dec_digits(o2 as nat) + seq![46u8]
                + dec_digits(o3 as nat) + seq![58u8]
                + dec_digits(a.port as nat),
        HostAddr::V6 { .. } => Seq::empty(),
    }
}

/// A decimal digit byte.
pub open spec fn is_digit(b: u8) -> bool {
    48 <= b <= 57
}

/// What the digit scanner computes: it absorbs digits from the front into
/// `acc`, counts them in `cnt`, fails as soon as the value passes `max`,
/// and stops at the first non-digit, failing if no digit was read at all.
pub open spec fn spec_dec_run(s: Seq<u8>, acc: nat, cnt: nat, max: nat) -> Option<(nat, nat)>
    decreases s.len(),
{
    if s.len() > 0 && is_digit(s[0]) {
        let acc2 = (acc * 10 + (s[0] - 48)) as nat;
        if acc2 > max {
            None
        } else {
            spec_dec_run(s.drop_first(), acc2, cnt + 1, max)
        }
    } else if cnt == 0 {
        None
    } else {
        Some((acc, cnt))
    }
}

/// One decimal number at the front of a buffer: digits scanned by
/// `spec_dec_run`, with a redundant leading zero refused.
pub open spec fn spec_parse_dec(s: Seq<u8>, max: nat) -> Option<(nat, nat)> {
    if s.len() >= 2 && s[0] == 48 && is_digit(s[1]) {
        None
    } else {
        spec_dec_run(s, 0, 0, max)
    }
}

/// Reads one decimal number in `buf[pos..end]`, of value at most `max`; on
/// success returns the value and the position of the first byte after it.
pub fn parse_dec(buf: &[u8], pos: usize, end: usize, max: u16) -> (r: Option<(u16, usize)>)
    requires
        pos <= end <= buf@.len(),
    ensures
        ({
            let d = spec_parse_dec(buf@.subrange(pos as int, end as int), max as nat);
            match r {
                Some(p) => d == Some((p.0 as nat, (p.1 - pos) as nat))
                    && pos < p.1 <= end && p.0 <= max,
                None => d is None,
            }
        }),
{
    let ghost s = buf@.subrange(pos as int, end as int);
    if end - pos >= 2 && buf[pos] == 48 && 48 <= buf[pos + 1] && buf[pos + 1] <= 57 {
        proof {
            assert(s[0] == buf@[pos as int]);
            assert(s[1] == buf@[pos + 1]);
        }
        return None;
    }
    let mut acc: u32 = 0;
    let mut i: usize = pos;
    proof {
        assert(s.skip(0) =~= s);
    }
    while i < end && 48 <= buf[i] && buf[i] <= 57
        invariant
            pos <= i <= end <= buf@.len(),
            acc <= max,
            s == buf@.subrange(pos as int, end as int),
            spec_dec_run(s, 0, 0, max as nat)
                == spec_dec_run(s.skip(i - pos), acc as nat, (i - pos) as nat, max as nat),
        decreases end - i,
    {
        proof {
            assert(s.skip(i - pos)[0] == buf@[i as int]);
        }
        let d = buf[i] - 48;
        let acc2 = acc * 10 + d as u32;
        if acc2 > max as u32 {
            proof {
                assert(spec_dec_run(s.skip(i - pos), acc as nat, (i - pos) as nat, max as nat)
                    is None);
            }
            return None;
        }
        acc = acc2;
        i = i + 1;
        proof {
            assert(s.skip(i - pos) =~= s.skip(i - 1 - pos).drop_first());
        }
    }
    proof {
        if i < end {
            assert(s.skip(i - pos)[0] == buf@[i as int]);
            assert(!is_digit(s.skip(i - pos)[0]));
        } else {
            assert(s.skip(i - pos).len() == 0);
        }
    }
    if i == pos {
        None
    } else {
        Some((acc as u16, i))
    }
}

/// The parse of a full IPv4 socket address text, exactly to the end of the
/// buffer: four octets of at most 255 joined by dots, a colon, and a port
/// of at most 65535.
pub open spec fn spec_parse_addr(s: Seq<u8>) -> Option<NetAddress> {
    match spec_parse_dec(s, 255) {
        None => None,
        Some((v0, c0)) => {
            if c0 >= s.len() || s[c0 as int] != 46 {
                None
            } else {
                let s1 = s.skip(c0 + 1 as int);
                match spec_parse_dec(s1, 255) {
                    None => None,
                    Some((v1, c1)) => {
                        if c1 >= s1.len() || s1[c1 as int] != 46 {
                            None
                        } else {
                            let s2 = s1.skip(c1 + 1 as int);
                            match spec_parse_dec(s2, 255) {
                                None => None,
                                Some((v2, c2)) => {
                                    if c2 >= s2.len() || s2[c2 as int] != 46 {
                                        None
                                    } else {
                                        let s3 = s2.skip(c2 + 1 as int);
                                        match spec_parse_dec(s3, 255) {
                                            None => None,
                                            Some((v3, c3)) => {
                                                if c3 >= s3.len() || s3[c3 as int] != 58 {
                                                    None
                                                } else {
                                                    let s4 = s3.skip(c3 + 1 as int);
                                                    match spec_parse_dec(s4, 65535) {
                                                        None => None,
                                                        Some((vp, cp)) => {
                                                            if cp != s4.len() {
                                                                None
                                                            } else {
                                                                Some(NetAddress {
                                                                    host: HostAddr::V4 {
                                                                        o0: v0 as u8,
                                                                        o1: v1 as u8,
                                                                        o2: v2 as u8,
                                                                        o3: v3 as u8,
                                                                    },
                                                                    port: vp as u16,
                                                                })
                                                            }
                                                        },
                                                    }
                                                }
                                            },
                                        }
                                    }
                                },
                            }
                        }
                    },
                }
            }
        },
    }
}

/// Parses `buf[pos..end]` as the text of an IPv4 socket address; the whole
/// range must be consumed.
pub fn parse_addr(buf: &[u8], pos: usize, end: usize) -> (r: Option<NetAddress>)
    requires
        pos <= end <= buf@.len(),
    ensures
        r == spec_parse_addr(buf@.subrange(pos as int, end as int)),
{
    let ghost s = buf@.subrange(pos as int, end as int);
    let r0 = parse_dec(buf, pos, end, 255);
    let (v0, p0) = match r0 {
        None => { return None; },
        Some(p) => p,
    };
    if p0 >= end || buf[p0] != 46 {
        proof { assert(p0 - pos < s.len() ==> s[p0 - pos] == buf@[p0 as int]); }
        return None;
    }
    proof {
        assert(s[p0 - pos] == buf@[p0 as int]);
        assert(s.skip(p0 + 1 - pos) =~= buf@.subrange(p0 + 1, end as int));
    }
    let r1 = parse_dec(buf, p0 + 1, end, 255);
    let (v1, p1) = match r1 {
        None => { return None; },
        Some(p) => p,
    };
    let ghost s1 = s.skip(p0 + 1 - pos);
    if p1 >= end || buf[p1] != 46 {
        proof { assert(p1 - (p0 + 1) < s1.len() ==> s1[p1 - (p0 + 1)] == buf@[p1 as int]); }
        return None;
    }
    proof {
        assert(s1[p1 - (p0 + 1)] == buf@[p1 as int]);
        assert(s1.skip(p1 + 1 - (p0 + 1)) =~= buf@.subrange(p1 + 1, end as int));
    }
    let r2 = parse_dec(buf, p1 + 1, end, 255);
    let (v2, p2) = match r2 {
        None => { return None; },
        Some(p) => p,
    };
    let ghost s2 = s1.skip(p1 + 1 - (p0 + 1));
    if p2 >= end || buf[p2] != 46 {
        proof { assert(p2 - (p1 + 1) < s2.len() ==> s2[p2 - (p1 + 1)] == buf@[p2 as int]); }
        return None;
    }
    proof {
        assert(s2[p2 - (p1 + 1)] == buf@[p2 as int]);
        assert(s2.skip(p2 + 1 - (p1 + 1)) =~= buf@.subrange(p2 + 1, end as int));
    }
    let r3 = parse_dec(buf, p2 + 1, end, 255);
    let (v3, p3) = match r3 {
        None => { return None; },
        Some(p) => p,
    };
    let ghost s3 = s2.skip(p2 + 1 - (p1 + 1));
    if p3 >= end || buf[p3] != 58 {
        proof { assert(p3 - (p2 + 1) < s3.len() ==> s3[p3 - (p2 + 1)] == buf@[p3 as int]); }
        return None;
    }
    proof {
        assert(s3[p3 - (p2 + 1)] == buf@[p3 as int]);
        assert(s3.skip(p3 + 1 - (p2 + 1)) =~= buf@.subrange(p3 + 1, end as int));
    }
    let rp = parse_dec(buf, p3 + 1, end, 65535);
    let (vp, pp) = match rp {
        None => { return None; },
        Some(p) => p,
    };
    if pp != end {
        return None;
    }
    Some(NetAddress {
        host: HostAddr::V4 { o0: v0 as u8, o1: v1 as u8, o2: v2 as u8, o3: v3 as u8 },
        port: vp,
    })
}

/// Appends the decimal digits of a value to a byte buffer.
pub fn push_dec(out: &mut Vec<u8>, n: u16)
    ensures
        final(out)@ == old(out)@ + dec_digits(n as nat),
    decreases n,
{
    if n < 10 {
        out.push(48 + n as u8);
        proof {
            assert(final(out)@ =~= old(out)@ + dec_digits(n as nat));
        }
    } else {
        push_dec(out, n / 10);
        out.push(48 + (n % 10) as u8);
        proof {
            assert(final(out)@ =~= old(out)@ + dec_digits(n as nat));
        }
    }
}

/// Appends the text of an IPv4 socket address to a byte buffer.
pub fn push_addr_text(out: &mut Vec<u8>, a: &NetAddress)
    requires
        a.is_v4(),
    ensures
        final(out)@ == old(out)@ + addr_text(*a),
{
    match a.host {
        HostAddr::V4 { o0, o1, o2, o3 } => {
            push_dec(out, o0 as u16);
            out.push(46);
            push_dec(out, o1 as u16);
            out.push(46);
            push_dec(out, o2 as u16);
            out.push(46);
            push_dec(out, o3 as u16);
            out.push(58);
            push_dec(out, a.port);
            proof {
                assert(final(out)@ =~= old(out)@ + addr_text(*a));
            }
        },
        HostAddr::V6 { .. } => {
            proof {
                assert(false);
            }
        },
    }
}

/// Every byte of a decimal rendering is a digit, and its first byte is the
/// zero digit only for the value zero.
pub proof fn lemma_dec_digits_shape(n: nat)
    ensures
        dec_digits(n).len() >= 1,
        forall|i: int| 0 <= i < dec_digits(n).len() ==> is_digit(#[trigger] dec_digits(n)[i]),
        n > 0 ==> dec_digits(n)[0] != 48,
    decreases n,
{
    if n < 10 {
    } else {
        lemma_dec_digits_shape(n / 10);
        assert(dec_digits(n) == dec_digits(n / 10) + seq![(48 + n % 10) as u8]);
        assert forall|i: int| 0 <= i < dec_digits(n).len()
            implies is_digit(#[trigger] dec_digits(n)[i]) by {
            if i < dec_digits(n / 10).len() {
                assert(dec_digits(n)[i] == dec_digits(n / 10)[i]);
            }
        }
        assert(dec_digits(n)[0] == dec_digits(n / 10)[0]);
    }
}

/// The scanner value of a digit sequence read onto an accumulator.
pub open spec fn spec_valf(s: Seq<u8>, acc: nat) -> nat
    decreases s.len(),
{
    if s.len() == 0 {
        acc
    } else {
        spec_valf(s.drop_first(), (acc * 10 + (s[0] - 48)) as nat)
    }
}

/// The scanner value never falls below its accumulator.
proof fn lemma_valf_monotone(s: Seq<u8>, acc: nat)
    requires
        forall|i: int| 0 <= i < s.len() ==> is_digit(#[trigger] s[i]),
    ensures
        spec_valf(s, acc) >= acc,
    decreases s.len(),
{
    if s.len() > 0 {
        assert(is_digit(s[0]));
        let acc2 = (acc * 10 + (s[0] - 48)) as nat;
        assert(acc2 >= acc) by (nonlinear_arith)
            requires acc2 == acc * 10 + (s[0] - 48), s[0] >= 48,
        ;
        assert(forall|i: int| 0 <= i < s.drop_first().len()
            ==> #[trigger] s.drop_first()[i] == s[i + 1]);
        lemma_valf_monotone(s.drop_first(), acc2);
    }
}

/// Scanning a digit run followed by a non-digit yields its scanner value
/// and consumes exactly the run.
proof fn lemma_run_seq(d: Seq<u8>, rest: Seq<u8>, acc: nat, cnt: nat, max: nat)
    requires
        d.len() >= 1,
        forall|i: int| 0 <= i < d.len() ==> is_digit(#[trigger] d[i]),
        spec_valf(d, acc) <= max,
        rest.len() == 0 || !is_digit(rest[0]),
    ensures
        spec_dec_run(d + rest, acc, cnt, max) == Some((spec_valf(d, acc), (cnt + d.len()) as nat)),
    decreases d.len(),
{
    let s = d + rest;
    assert(s[0] == d[0]);
    assert(is_digit(s[0]));
    let acc2 = (acc * 10 + (s[0] - 48)) as nat;
    assert(forall|i: int| 0 <= i < d.drop_first().len()
        ==> #[trigger] d.drop_first()[i] == d[i + 1]);
    assert(spec_valf(d, acc) == spec_valf(d.drop_first(), acc2));
    lemma_valf_monotone(d.drop_first(), acc2);
    assert(acc2 <= max);
    if d.len() == 1 {
        assert(s.drop_first() =~= rest);
        assert(spec_dec_run(s, acc, cnt, max) == spec_dec_run(rest, acc2, cnt + 1, max));
        assert(spec_valf(d, acc) == acc2);
        if rest.len() == 0 {
        } else {
            assert(!is_digit(rest[0]));
        }
    } else {
        assert(s.drop_first() =~= d.drop_first() + rest);
        lemma_run_seq(d.drop_first(), rest, acc2, cnt + 1, max);
    }
}

/// The scanner value of a rendering: reading `dec_digits(n)` onto `acc`
/// gives `acc` shifted left by the rendering's width, plus `n`.
proof fn lemma_valf_dec(n: nat, acc: nat)
    ensures
        spec_valf(dec_digits(n), acc) == acc * pow10(dec_digits(n).len()) + n,
    decreases n,
{
    if n < 10 {
        let d = dec_digits(n);
        let e = d.drop_first();
        assert(e =~= Seq::empty());
        let acc2 = (acc * 10 + (d[0] - 48)) as nat;
        assert(spec_valf(e, acc2) == acc2);
        assert(d[0] == 48 + n);
        assert(spec_valf(d, acc) == acc * 10 + n);
        assert(pow10(0) == 1);
        assert(pow10(1) == 10);
    } else {
        let a = dec_digits(n / 10);
        let last = seq![(48 + n % 10) as u8];
        assert(dec_digits(n) == a + last);
        lemma_valf_append(a, last, acc);
        lemma_valf_dec(n / 10, acc);
        let la = a.len();
        let e = last.drop_first();
        assert(e =~= Seq::empty());
        let accl = (spec_valf(a, acc) * 10 + (last[0] - 48)) as nat;
        assert(spec_valf(e, accl) == accl);
        assert(last[0] == 48 + n % 10);
        assert(spec_valf(last, spec_valf(a, acc))
            == spec_valf(a, acc) * 10 + n % 10);
        assert((acc * pow10(la) + n / 10) * 10 == acc * (pow10(la) * 10) + (n / 10) * 10)
            by (nonlinear_arith);
        assert(pow10(la + 1) == pow10(la) * 10) by {
            lemma_pow10_step(la);
        }
        assert((n / 10) * 10 + n % 10 == n) by {
            vstd::arithmetic::div_mod::lemma_fundamental_div_mod(n as int, 10);
        }
    }
}

/// Powers of ten.
pub open spec fn pow10(k: nat) -> nat
    decreases k,
{
    if k == 0 {
        1
    } else {
        10 * pow10((k - 1) as nat)
    }
}

/// One step of `pow10`, stated on the high end.
proof fn lemma_pow10_step(k: nat)
    ensures
        pow10(k + 1) == pow10(k) * 10,
    decreases k,
{
    if k > 0 {
        lemma_pow10_step((k - 1) as nat);
    }
}

/// Splitting a scan at a sequence boundary.
proof fn lemma_valf_append(a: Seq<u8>, b: Seq<u8>, acc: nat)
    ensures
        spec_valf(a + b, acc) == spec_valf(b, spec_valf(a, acc)),
    decreases a.len(),
{
    if a.len() == 0 {
        assert(a + b =~= b);
    } else {
        let acc2 = (acc * 10 + ((a + b)[0] - 48)) as nat;
        assert((a + b)[0] == a[0]);
        assert((a + b).drop_first() =~= a.drop_first() + b);
        lemma_valf_append(a.drop_first(), b, acc2);
    }
}

/// Round trip for one number: parsing its rendering followed by anything
/// that is not a digit yields the number back and consumes the rendering.
pub proof fn lemma_parse_dec_round_trip(n: nat, rest: Seq<u8>, max: nat)
    requires
        n <= max,
        rest.len() == 0 || !is_digit(rest[0]),
    ensures
        spec_parse_dec(dec_digits(n) + rest, max) == Some((n, dec_digits(n).len())),
{
    let d = dec_digits(n);
    let s = d + rest;
    lemma_dec_digits_shape(n);
    assert(s[0] == d[0]);
    if s.len() >= 2 && s[0] == 48 && is_digit(s[1]) {
        assert(n == 0);
        assert(d.len() == 1);
        assert(s[1] == rest[0]);
        assert(false);
    }
    lemma_valf_dec(n, 0);
    assert(0 * pow10(d.len()) == 0) by (nonlinear_arith);
    lemma_run_seq(d, rest, 0, 0, max);
}

/// A crude but sufficient bound on the width of a decimal rendering.
pub proof fn lemma_dec_digits_len_crude(n: nat)
    ensures
        dec_digits(n).len() <= n + 1,
    decreases n,
{
    if n >= 10 {
        lemma_dec_digits_len_crude(n / 10);
    }
}

/// The pointer form of a server reference: the length of the address text
/// as a varint, then the text itself.
pub open spec fn addr_ptr_enc(a: NetAddress) -> Seq<u8> {
    spec_varint(addr_text(a).len()) + addr_text(a)
}

/// Appends the pointer form of an address to a byte buffer.
pub fn write_addr_ptr(out: &mut Vec<u8>, a: &NetAddress)
    requires
        a.is_v4(),
    ensures
        final(out)@ == old(out)@ + addr_ptr_enc(*a),
{
    let mut text: Vec<u8> = Vec::new();
    push_addr_text(&mut text, a);
    write_varint(out, text.len() as u64);
    out.append(&mut text);
    proof {
        assert(out@ =~= old(out)@ + addr_ptr_enc(*a));
    }
}

/// The parse of one address pointer at the front of a buffer: a varint
/// length, then exactly that many bytes of address text.
pub open spec fn spec_parse_addr_ptr(s: Seq<u8>) -> Result<(NetAddress, nat), DecodeError> {
    match spec_vdec(s, 0, 0) {
        None => Err(DecodeError::BadVarint),
        Some((ln, c)) => {
            if c + ln > s.len() {
                Err(DecodeError::Truncated)
            } else {
                match spec_parse_addr(s.subrange(c as int, (c + ln) as int)) {
                    None => Err(DecodeError::BadAddress),
                    Some(a) => Ok((a, (c + ln) as nat)),
                }
            }
        },
    }
}

/// Reads one address pointer starting at `pos`; on success returns the
/// address and the position of the first byte after it.
pub fn parse_addr_ptr(buf: &[u8], pos: usize) -> (r: Result<(NetAddress, usize), DecodeError>)
    requires
        pos <= buf@.len(),
    ensures
        ({
            let d = spec_parse_addr_ptr(buf@.skip(pos as int));
            match r {
                Ok(p) => d == Ok::<_, DecodeError>((p.0, (p.1 - pos) as nat))
                    && pos < p.1 <= buf@.len(),
                Err(e) => d == Err::<(NetAddress, nat), _>(e),
            }
        }),
{
    let ghost t = buf@.skip(pos as int);
    match read_varint(buf, pos) {
        None => Err(DecodeError::BadVarint),
        Some((ln, p2)) => {
            if ln > (buf.len() - p2) as u64 {
                proof {
                    assert(t.len() - (p2 - pos) == buf@.len() - p2);
                }
                Err(DecodeError::Truncated)
            } else {
                let end = p2 + ln as usize;
                proof {
                    assert(t.subrange(p2 - pos, end - pos)
                        =~= buf@.subrange(p2 as int, end as int));
                }
                match parse_addr(buf, p2, end) {
                    None => Err(DecodeError::BadAddress),
                    Some(a) => Ok((a, end)),
                }
            }
        },
    }
}

/// Round trip for one address pointer: parsing the pointer form of an
/// IPv4 address, whatever follows it, yields the address back.
pub proof fn lemma_addr_ptr_round_trip(a: NetAddress, rest: Seq<u8>)
    requires
        a.is_v4(),
    ensures
        spec_parse_addr_ptr(addr_ptr_enc(a) + rest)
            == Ok::<_, DecodeError>((a, addr_ptr_enc(a).len())),
{
    let text = addr_text(a);
    assert(text.len() <= u64::MAX) by {
        match a.host {
            HostAddr::V4 { o0, o1, o2, o3 } => {
                lemma_dec_digits_len_crude(o0 as nat);
                lemma_dec_digits_len_crude(o1 as nat);
                lemma_dec_digits_len_crude(o2 as nat);
                lemma_dec_digits_len_crude(o3 as nat);
                lemma_dec_digits_len_crude(a.port as nat);
            },
            HostAddr::V6 { .. } => {},
        }
    }
    let s = addr_ptr_enc(a) + rest;
    assert(s =~= spec_varint(text.len() as u64 as nat) + (text + rest));
    lemma_varint_round_trip(text.len() as u64, text + rest);
    let c = spec_varint(text.len()).len();
    assert(spec_vdec(s, 0, 0) == Some((text.len() as u64, c)));
    assert(s.subrange(c as int, (c + text.len()) as int) =~= text);
    lemma_parse_addr_round_trip(a);
}

/// The concatenation of the pointer forms of a list of addresses.
pub open spec fn cat_addr_ptrs(s: Seq<NetAddress>) -> Seq<u8>
    decreases s.len(),
{
    if s.len() == 0 {
        Seq::empty()
    } else {
        addr_ptr_enc(s[0]) + cat_addr_ptrs(s.drop_first())
    }
}

/// Appending one more address to a pointer list appends its pointer form.
pub proof fn lemma_cat_addr_ptrs_snoc(s: Seq<NetAddress>, x: NetAddress)
    ensures
        cat_addr_ptrs(s.push(x)) == cat_addr_ptrs(s) + addr_ptr_enc(x),
    decreases s.len(),
{
    if s.len() == 0 {
        assert(s.push(x)[0] == x);
        assert(s.push(x).drop_first() =~= Seq::empty());
        assert(cat_addr_ptrs(Seq::empty()) == Seq::<u8>::empty());
        assert(cat_addr_ptrs(s.push(x)) =~= cat_addr_ptrs(s) + addr_ptr_enc(x));
    } else {
        assert(s.push(x)[0] == s[0]);
        assert(s.push(x).drop_first() =~= s.drop_first().push(x));
        lemma_cat_addr_ptrs_snoc(s.drop_first(), x);
        assert(cat_addr_ptrs(s.push(x)) =~= cat_addr_ptrs(s) + addr_ptr_enc(x));
    }
}

/// The parse of `n` address pointers in a row, folding each into an
/// ordered address list as the ordered set insertion does.
pub open spec fn spec_parse_addr_ptrs(s: Seq<u8>, n: nat, acc: Seq<NetAddress>)
    -> Result<(Seq<NetAddress>, nat), DecodeError>
    decreases n,
{
    if n == 0 {
        Ok((acc, 0))
    } else {
        match spec_parse_addr_ptr(s) {
            Err(e) => Err(e),
            Ok((a, c)) => {
                match spec_parse_addr_ptrs(s.skip(c as int), (n - 1) as nat, addr_insert(acc, a)) {
                    Err(e) => Err(e),
                    Ok((res, c2)) => Ok((res, (c + c2) as nat)),
                }
            },
        }
    }
}

/// Reads `n` address pointers starting at `pos` into an ordered address
/// list; on success returns the list and the position after the last one.
pub fn parse_addr_ptrs(buf: &[u8], pos: usize, n: u64)
    -> (r: Result<(Vec<NetAddress>, usize), DecodeError>)
    requires
        pos <= buf@.len(),
    ensures
        ({
            let d = spec_parse_addr_ptrs(buf@.skip(pos as int), n as nat, Seq::empty());
            match r {
                Ok(p) => d == Ok::<_, DecodeError>((p.0@, (p.1 - pos) as nat))
                    && pos <= p.1 <= buf@.len(),
                Err(e) => d == Err::<(Seq<NetAddress>, nat), _>(e),
            }
        }),
{
    let mut out: Vec<NetAddress> = Vec::new();
    let mut cur: usize = pos;
    let mut i: u64 = 0;
    while i < n
        invariant
            pos <= cur <= buf@.len(),
            0 <= i <= n,
            ({
                let d = spec_parse_addr_ptrs(buf@.skip(pos as int), n as nat, Seq::empty());
                let drest = spec_parse_addr_ptrs(buf@.skip(cur as int), (n - i) as nat, out@);
                match drest {
                    Ok(p) => d == Ok::<_, DecodeError>((p.0, ((cur - pos) + p.1) as nat)),
                    Err(e) => d == Err::<(Seq<NetAddress>, nat), _>(e),
                }
            }),
        decreases n - i,
    {
        match parse_addr_ptr(buf, cur) {
            Err(e) => {
                return Err(e);
            },
            Ok((a, np)) => {
                proof {
                    assert(buf@.skip(cur as int).skip(np - cur) =~= buf@.skip(np as int));
                }
                insert_addr_sorted(&mut out, a);
                cur = np;
                i = i + 1;
            },
        }
    }
    Ok((out, cur))
}

/// Round trip for an address pointer list: parsing the concatenated
/// pointer forms of IPv4 addresses folds them all into the accumulator.
pub proof fn lemma_addr_ptrs_round_trip(items: Seq<NetAddress>, rest: Seq<u8>, acc: Seq<NetAddress>)
    requires
        forall|j: int| 0 <= j < items.len() ==> (#[trigger] items[j]).is_v4(),
    ensures
        spec_parse_addr_ptrs(cat_addr_ptrs(items) + rest, items.len(), acc)
            == Ok::<_, DecodeError>((union_addrs(acc, items), cat_addr_ptrs(items).len())),
    decreases items.len(),
{
    if items.len() == 0 {
        assert(cat_addr_ptrs(items) + rest =~= rest);
    } else {
        let a0 = items[0];
        let tail = items.drop_first();
        let s = cat_addr_ptrs(items) + rest;
        assert(s =~= addr_ptr_enc(a0) + (cat_addr_ptrs(tail) + rest));
        lemma_addr_ptr_round_trip(a0, cat_addr_ptrs(tail) + rest);
        let c = addr_ptr_enc(a0).len();
        assert(s.skip(c as int) =~= cat_addr_ptrs(tail) + rest);
        assert(forall|j: int| 0 <= j < tail.len() ==> #[trigger] tail[j] == items[j + 1]);
        lemma_addr_ptrs_round_trip(tail, rest, addr_insert(acc, a0));
    }
}

/// Round trip for a whole address: parsing the text of an IPv4 socket
/// address yields the address back.
#[verifier::rlimit(100)]
#[verifier::spinoff_prover]
pub proof fn lemma_parse_addr_round_trip(a: NetAddress)
    requires
        a.is_v4(),
    ensures
        spec_parse_addr(addr_text(a)) == Some(a),
{
    let s = addr_text(a);
    match a.host {
        HostAddr::V4 { o0, o1, o2, o3 } => {
            let d0 = dec_digits(o0 as nat);
            let d1 = dec_digits(o1 as nat);
            let d2 = dec_digits(o2 as nat);
            let d3 = dec_digits(o3 as nat);
            let dp = dec_digits(a.port as nat);
            let r0 = seq![46u8] + d1 + seq![46u8] + d2 + seq![46u8] + d3 + seq![58u8] + dp;
            assert(s =~= d0 + r0);
            lemma_parse_dec_round_trip(o0 as nat, r0, 255);
            assert(spec_parse_dec(s, 255) == Some((o0 as nat, d0.len())));
            assert(s[d0.len() as int] == 46) by {
                assert(r0[0] == 46);
            }
            let s1 = s.skip(d0.len() + 1 as int);
            let r1 = seq![46u8] + d2 + seq![46u8] + d3 + seq![58u8] + dp;
            assert(s1 =~= d1 + r1);
            lemma_parse_dec_round_trip(o1 as nat, r1, 255);
            assert(s1[d1.len() as int] == 46) by {
                assert(r1[0] == 46);
            }
            let s2 = s1.skip(d1.len() + 1 as int);
            let r2 = seq![46u8] + d3 + seq![58u8] + dp;
            assert(s2 =~= d2 + r2);
            lemma_parse_dec_round_trip(o2 as nat, r2, 255);
            assert(s2[d2.len() as int] == 46) by {
                assert(r2[0] == 46);
            }
            let s3 = s2.skip(d2.len() + 1 as int);
            let r3 = seq![58u8] + dp;
            assert(s3 =~= d3 + r3);
            lemma_parse_dec_round_trip(o3 as nat, r3, 255);
            assert(s3[d3.len() as int] == 58) by {
                assert(r3[0] == 58);
            }
            let s4 = s3.skip(d3.len() + 1 as int);
            assert(s4 =~= dp);
            assert(dp =~= dp + Seq::<u8>::empty());
            lemma_parse_dec_round_trip(a.port as nat, Seq::empty(), 65535);
            assert(spec_parse_dec(s4, 65535) == Some((a.port as nat, dp.len())));
        },
        HostAddr::V6 { .. } => {},
    }
}

} // verus!
