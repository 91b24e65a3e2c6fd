//! Unsigned variable-length integers: every length and count prefix of the
//! binary snapshot format is one. The encoding splits a value into seven-bit
//! groups, least significant first, and sets the high bit on every byte but
//! the last. The actual byte work is done by the integer_encoding crate; the
//! functions here give it an exact specification and prove the round trip.
use vstd::prelude::*;
use vstd::slice::slice_subrange;
use vstd::arithmetic::power2::{pow2, lemma_pow2_adds, lemma2_to64, lemma2_to64_rest};
use vstd::arithmetic::div_mod::lemma_fundamental_div_mod;
use integer_encoding::VarInt;

verus! {

/// The canonical varint encoding of a value.
pub open spec fn spec_varint(n: nat) -> Seq<u8>
    decreases n,
{
    if n < 128 {
        seq![n as u8]
    } else {
        seq![(n % 128 + 128) as u8] + spec_varint(n / 128)
    }
}

/// What the decoder computes on a byte sequence, carrying the number `k` of
/// groups read so far and the value `acc` accumulated from them. A byte
/// without its high bit ends the number; at most ten groups are read, and a
/// tenth byte above 1 would overflow 64 bits and is rejected.
pub open spec fn spec_vdec(s: Seq<u8>, k: nat, acc: nat) -> Option<(u64, nat)>
    decreases s.len(),
{
    if s.len() == 0 {
        None
    } else {
        let b = s[0];
        let acc2 = (acc + (b % 128) * pow2(7 * k)) as nat;
        if k >= 9 {
            if b < 2 {
                Some((acc2 as u64, k + 1))
            } else {
                None
            }
        } else if b < 128 {
            Some((acc2 as u64, k + 1))
        } else {
            spec_vdec(s.drop_first(), k + 1, acc2)
        }
    }
}

/// Relies on integer_encoding's `VarInt::encode_var_vec` for `u64`: it
/// emits the value in seven-bit groups, least significant first, with the
/// high bit set on every byte but the last.
#[verifier::external_body]
fn varint_encode(n: u64) -> (r: Vec<u8>)
    ensures
        r@ == spec_varint(n as nat),
{
    n.encode_var_vec()
}

/// Relies on integer_encoding's `VarInt::decode_var` for `u64`: it reads
/// seven-bit groups, least significant first, until a byte without its high
/// bit, refuses a tenth byte above 1, and reports the value together with
/// how many bytes it read, or nothing when the buffer ends first.
#[verifier::external_body]
fn varint_decode(buf: &[u8]) -> (r: Option<(u64, usize)>)
    ensures
        ({
            let d = spec_vdec(buf@, 0, 0);
            match r {
                Some(p) => d == Some((p.0, p.1 as nat)),
                None => d is None,
            }
        }),
{
    <u64 as VarInt>::decode_var(buf)
}

/// Appends the varint encoding of a value to a byte buffer.
pub fn write_varint(out: &mut Vec<u8>, n: u64)
    ensures
        final(out)@ == old(out)@ + spec_varint(n as nat),
{
    let mut bytes = varint_encode(n);
    out.append(&mut bytes);
}

/// Reads one varint starting at `pos`; on success returns the value and the
/// position of the first byte after it.
pub fn read_varint(buf: &[u8], pos: usize) -> (r: Option<(u64, usize)>)
    requires
        pos <= buf@.len(),
    ensures
        ({
            let d = spec_vdec(buf@.skip(pos as int), 0, 0);
            match r {
                Some(p) => d == Some((p.0, (p.1 - pos) as nat)) && pos < p.1 <= buf@.len(),
                None => d is None,
            }
        }),
{
    let sub = slice_subrange(buf, pos, buf.len());
    proof {
        assert(sub@ == buf@.skip(pos as int));
    }
    match varint_decode(sub) {
        Some((v, c)) => {
            proof {
                lemma_vdec_bounds(sub@, 0, 0);
            }
            Some((v, pos + c))
        },
        None => None,
    }
}

/// A successful decode consumes at least one byte and never more than the
/// buffer holds.
pub proof fn lemma_vdec_bounds(s: Seq<u8>, k: nat, acc: nat)
    ensures
        spec_vdec(s, k, acc) matches Some(p) ==> k < p.1 <= k + s.len(),
    decreases s.len(),
{
    if s.len() > 0 {
        let b = s[0];
        let acc2 = (acc + (b % 128) * pow2(7 * k)) as nat;
        if k < 9 && b >= 128 {
            lemma_vdec_bounds(s.drop_first(), k + 1, acc2);
        }
    }
}

/// The encoding of a value below `pow2(7 * j)` takes at most `j` bytes.
pub proof fn lemma_varint_len(n: nat, j: nat)
    requires
        n < pow2(7 * j),
        1 <= j,
    ensures
        spec_varint(n).len() <= j,
    decreases j,
{
    if n < 128 {
    } else {
        assert(7 * j == 7 * (j - 1) + 7);
        lemma_pow2_adds(7 * (j - 1) as nat, 7);
        lemma2_to64();
        assert(pow2(7) == 128);
        assert(n / 128 < pow2(7 * (j - 1) as nat)) by {
            lemma_fundamental_div_mod(n as int, 128);
            assert(n == 128 * (n / 128) + n % 128);
            if n / 128 >= pow2(7 * (j - 1) as nat) {
                assert(128 * (n / 128) >= 128 * pow2(7 * (j - 1) as nat))
                    by (nonlinear_arith)
                    requires n / 128 >= pow2(7 * (j - 1) as nat),
                ;
            }
        }
        assert(j - 1 >= 1) by {
            if j == 1 {
                lemma2_to64();
                assert(pow2(7) == 128);
            }
        }
        lemma_varint_len(n / 128, (j - 1) as nat);
    }
}

/// Decoding from the middle of a longer number: reading the encoding of `n`
/// with `k` groups already absorbed into `acc` yields `acc + n * pow2(7k)`
/// and stops exactly at the end of the encoding.
proof fn lemma_vdec_of_varint(n: nat, rest: Seq<u8>, k: nat, acc: nat)
    requires
        acc + n * pow2(7 * k) < pow2(64),
        k + spec_varint(n).len() <= 10,
    ensures
        spec_vdec(spec_varint(n) + rest, k, acc)
            == Some((((acc + n * pow2(7 * k)) as u64), (k + spec_varint(n).len()) as nat)),
    decreases n,
{
    let s = spec_varint(n) + rest;
    if n < 128 {
        assert(s[0] == n as u8);
        let b = s[0];
        assert(b % 128 == n);
        assert(acc + (b % 128) * pow2(7 * k) == acc + n * pow2(7 * k));
        if k >= 9 {
            assert(k == 9);
            assert(b < 2) by {
                lemma2_to64();
                lemma_pow2_adds(63, 1);
                assert(7 * 9 == 63);
                if n >= 2 {
                    assert(n * pow2(63) >= 2 * pow2(63)) by (nonlinear_arith)
                        requires n >= 2,
                    ;
                }
            }
        }
    } else {
        let b = s[0];
        assert(spec_varint(n) == seq![(n % 128 + 128) as u8] + spec_varint(n / 128));
        assert(s[0] == (n % 128 + 128) as u8);
        assert(b % 128 == n % 128 && b >= 128);
        assert(k < 9) by {
            assert(spec_varint(n).len() >= 2);
        }
        let acc2 = acc + (n % 128) * pow2(7 * k);
        assert(s.drop_first() =~= spec_varint(n / 128) + rest);
        assert(acc2 + (n / 128) * pow2(7 * (k + 1)) == acc + n * pow2(7 * k)) by {
            lemma_pow2_adds(7 * k, 7);
            lemma2_to64();
            assert(pow2(7) == 128);
            assert(7 * (k + 1) == 7 * k + 7);
            lemma_fundamental_div_mod(n as int, 128);
            assert((n % 128) * pow2(7 * k) + (n / 128) * (pow2(7 * k) * 128)
                == ((n % 128) + 128 * (n / 128)) * pow2(7 * k)) by (nonlinear_arith);
        }
        lemma_vdec_of_varint(n / 128, rest, k + 1, acc2);
        assert(spec_vdec(s, k, acc) == spec_vdec(s.drop_first(), k + 1, acc2));
    }
}

/// Round trip: decoding a buffer that starts with the encoding of `n`
/// yields `n` and consumes exactly the encoding.
pub proof fn lemma_varint_round_trip(n: u64, rest: Seq<u8>)
    ensures
        spec_vdec(spec_varint(n as nat) + rest, 0, 0)
            == Some((n, spec_varint(n as nat).len())),
{
    lemma2_to64();
    lemma2_to64_rest();
    assert(pow2(0) == 1);
    assert(n * pow2(0) == n) by (nonlinear_arith)
        requires pow2(0) == 1,
    ;
    assert(n < pow2(64));
    assert(spec_varint(n as nat).len() <= 10) by {
        lemma_pow2_adds(64, 6);
        assert(pow2(64) <= pow2(70)) by {
            assert(pow2(64) * pow2(6) == pow2(70));
            assert(pow2(6) >= 1);
            assert(pow2(64) * 1 <= pow2(64) * pow2(6)) by (nonlinear_arith)
                requires pow2(6) >= 1,
            ;
        }
        assert(7 * 10 == 70);
        lemma_varint_len(n as nat, 10);
    }
    lemma_vdec_of_varint(n as nat, rest, 0, 0);
}

} // verus!
