//! Byte-level readers over a byte source: the variable-length ("gamma")
//! unsigned integer codec, big-endian fixed-width integers, and
//! length-prefixed strings, with the sequence-level model each one is
//! verified against.

use vstd::arithmetic::mul::{lemma_mul_inequality, lemma_mul_is_distributive_add_other_way};
use vstd::prelude::*;
use vstd::utf8::{decode_utf8, valid_utf8};

use crate::common::{is_suffix_of, LoadError};
use crate::save_file::SaveFile;

pub use crate::common::has_bit;

verus! {

/// 256 to the power `k`: the weight of a byte `k` positions from the end of a
/// big-endian number.
pub open spec fn pow256(k: nat) -> nat
    decreases k,
{
    if k == 0 {
        1
    } else {
        256 * pow256((k - 1) as nat)
    }
}

/// The unsigned value of `s` read as a big-endian number.
pub open spec fn be_value(s: Seq<u8>) -> nat
    decreases s.len(),
{
    if s.len() == 0 {
        0
    } else {
        (be_value(s.drop_last()) * 256 + s.last()) as nat
    }
}

pub proof fn lemma_be_value_bound(s: Seq<u8>)
    ensures
        be_value(s) < pow256(s.len()),
    decreases s.len(),
{
    if s.len() > 0 {
        lemma_be_value_bound(s.drop_last());
    }
}

/// The concrete weights of the first few byte positions.
pub proof fn lemma_pow256_values()
    ensures
        pow256(0) == 1,
        pow256(1) == 0x100,
        pow256(2) == 0x1_0000,
        pow256(3) == 0x100_0000,
        pow256(4) == 0x1_0000_0000,
        pow256(8) == 0x1_0000_0000_0000_0000,
{
    assert(pow256(0) == 1);
    assert(pow256(1) == 0x100);
    assert(pow256(2) == 0x1_0000);
    assert(pow256(3) == 0x100_0000);
    assert(pow256(4) == 0x1_0000_0000);
    assert(pow256(5) == 0x100_0000_0000);
    assert(pow256(6) == 0x1_0000_0000_0000);
    assert(pow256(7) == 0x100_0000_0000_0000);
    assert(pow256(8) == 0x1_0000_0000_0000_0000);
}

pub proof fn lemma_pow256_mono(i: nat, j: nat)
    requires
        i <= j,
    ensures
        pow256(i) <= pow256(j),
    decreases j,
{
    if i < j {
        lemma_pow256_mono(i, (j - 1) as nat);
    }
}

/// How many extension bytes the first byte of a gamma encoding announces:
/// one per leading escape bit, read from bit 7 downward.
pub open spec fn gamma_ext_count(b0: u8) -> nat {
    if b0 & 0x80 == 0 {
        0
    } else if b0 & 0x40 == 0 {
        1
    } else if b0 & 0x20 == 0 {
        2
    } else if b0 & 0x10 == 0 {
        3
    } else {
        4
    }
}

/// The first byte's own contribution: its value with the escape bits cleared.
pub open spec fn gamma_first_value(b0: u8) -> nat {
    if b0 & 0x80 == 0 {
        b0 as nat
    } else if b0 & 0x40 == 0 {
        (b0 & 0x3f) as nat
    } else if b0 & 0x20 == 0 {
        (b0 & 0x1f) as nat
    } else if b0 & 0x10 == 0 {
        (b0 & 0x0f) as nat
    } else {
        (b0 & 0x07) as nat
    }
}

/// A first byte with all four escape bits and bit 3 set would announce a
/// fifth escape level, which the format does not define.
pub open spec fn gamma_malformed(b0: u8) -> bool {
    b0 & 0xf8 == 0xf8
}

/// True iff `s` starts with a complete, well-formed gamma encoding.
pub open spec fn gamma_ok(s: Seq<u8>) -> bool {
    s.len() > 0 && !gamma_malformed(s[0]) && s.len() >= 1 + gamma_ext_count(s[0])
}

/// How many bytes the gamma encoding at the start of `s` occupies.
pub open spec fn gamma_size(s: Seq<u8>) -> nat {
    1 + gamma_ext_count(s[0])
}

/// The integer encoded by the gamma encoding at the start of `s`: the first
/// byte's cleared value, shifted one byte position per extension byte, with
/// the extension bytes below it in big-endian order.
pub open spec fn gamma_value(s: Seq<u8>) -> nat {
    gamma_first_value(s[0]) * pow256(gamma_ext_count(s[0])) + be_value(
        s.subrange(1, 1 + gamma_ext_count(s[0]) as int),
    )
}

/// The error for a byte sequence that does not start with a well-formed,
/// complete gamma encoding.
pub open spec fn gamma_err(s: Seq<u8>) -> LoadError {
    if s.len() > 0 && gamma_malformed(s[0]) {
        LoadError::MalformedGamma
    } else {
        LoadError::UnexpectedEnd
    }
}

/// Every gamma value fits in 35 bits.
pub proof fn lemma_gamma_value_bound(s: Seq<u8>)
    requires
        gamma_ok(s),
    ensures
        gamma_value(s) < 0x8_0000_0000,
{
    let k = gamma_ext_count(s[0]);
    let first = gamma_first_value(s[0]);
    let ext = s.subrange(1, 1 + k as int);
    let b0 = s[0];
    lemma_be_value_bound(ext);
    assert(first * pow256(k) + pow256(k) == (first + 1) * pow256(k)) by {
        lemma_mul_is_distributive_add_other_way(pow256(k) as int, first as int, 1);
    }
    assert(b0 & 0x80 == 0 ==> b0 < 0x80) by (bit_vector);
    assert((b0 & 0x3f) < 0x40 && (b0 & 0x1f) < 0x20 && (b0 & 0x0f) < 0x10 && (b0 & 0x07) < 0x08)
        by (bit_vector);
    lemma_pow256_values();
    assert((first + 1) * pow256(k) <= 0x8_0000_0000) by {
        if k == 0 {
            lemma_mul_inequality((first + 1) as int, 0x80, 1);
        } else if k == 1 {
            lemma_mul_inequality((first + 1) as int, 0x40, 0x100);
        } else if k == 2 {
            lemma_mul_inequality((first + 1) as int, 0x20, 0x1_0000);
        } else if k == 3 {
            lemma_mul_inequality((first + 1) as int, 0x10, 0x100_0000);
        } else {
            lemma_mul_inequality((first + 1) as int, 0x08, 0x1_0000_0000);
        }
    }
}

/// Reads `k` further bytes below the accumulator `seed`, big-endian.
fn read_be_seeded<S: SaveFile>(reader: &mut S, seed: u64, k: usize) -> (r: Result<u64, LoadError>)
    requires
        old(reader).wf(),
        k <= 8,
        (seed as nat + 1) * pow256(k as nat) <= 0x1_0000_0000_0000_0000,
    ensures
        final(reader).wf(),
        match r {
            Ok(v) => old(reader).bytes().len() >= k && v as nat == seed as nat * pow256(k as nat)
                + be_value(old(reader).bytes().take(k as int)) && final(reader).bytes() == old(reader).bytes().skip(k as int),
            Err(e) => old(reader).bytes().len() < k && e == LoadError::UnexpectedEnd && final(reader).bytes() == old(reader).bytes(),
        },
{
    let buf = match reader.read_exact(k) {
        Ok(v) => v,
        Err(e) => {
            return Err(e);
        },
    };
    let ghost s = old(reader).bytes().take(k as int);
    let mut v: u64 = seed;
    let mut i: usize = 0;
    while i < k
        invariant
            i <= k,
            k <= 8,
            buf@ == s,
            s.len() == k,
            reader.wf(),
            old(reader).bytes().len() >= k,
            reader.bytes() == old(reader).bytes().skip(k as int),
            (seed as nat + 1) * pow256(k as nat) <= 0x1_0000_0000_0000_0000,
            v as nat == seed as nat * pow256(i as nat) + be_value(s.take(i as int)),
        decreases k - i,
    {
        proof {
            lemma_be_value_bound(s.take(i as int));
            lemma_pow256_mono(i as nat + 1, k as nat);
            assert(pow256(i as nat + 1) == 256 * pow256(i as nat));
            assert(v as nat * 256 + 255 < 0x1_0000_0000_0000_0000) by (nonlinear_arith)
                requires
                    v as nat == seed as nat * pow256(i as nat) + be_value(s.take(i as int)),
                    be_value(s.take(i as int)) < pow256(i as nat),
                    pow256(i as nat + 1) == 256 * pow256(i as nat),
                    pow256(i as nat + 1) <= pow256(k as nat),
                    (seed as nat + 1) * pow256(k as nat) <= 0x1_0000_0000_0000_0000,
            ;
            assert(s.take(i + 1).drop_last() =~= s.take(i as int));
            assert(s.take(i + 1).last() == s[i as int]);
        }
        let ghost v_old = v as nat;
        v = v * 256 + buf[i] as u64;
        proof {
            assert(v as nat == seed as nat * pow256(i as nat + 1) + be_value(s.take(i + 1)))
                by (nonlinear_arith)
                requires
                    v as nat == v_old * 256 + s.take(i + 1).last(),
                    v_old == seed as nat * pow256(i as nat) + be_value(s.take(i as int)),
                    pow256(i as nat + 1) == 256 * pow256(i as nat),
                    be_value(s.take(i + 1)) == be_value(s.take(i as int)) * 256 + s.take(
                        i + 1,
                    ).last(),
            ;
        }
        i = i + 1;
    }
    proof {
        assert(s.take(k as int) =~= s);
    }
    Ok(v)
}

/// Reads a `k`-byte big-endian unsigned integer.
pub fn read_be<S: SaveFile>(reader: &mut S, k: usize) -> (r: Result<u64, LoadError>)
    requires
        old(reader).wf(),
        k <= 8,
    ensures
        final(reader).wf(),
        match r {
            Ok(v) => old(reader).bytes().len() >= k
                && v as nat == be_value(old(reader).bytes().take(k as int))
                && (v as nat) < pow256(k as nat)
                && final(reader).bytes() == old(reader).bytes().skip(k as int),
            Err(e) => old(reader).bytes().len() < k && e == LoadError::UnexpectedEnd
                && final(reader).bytes() == old(reader).bytes(),
        },
{
    proof {
        lemma_pow256_values();
        lemma_pow256_mono(k as nat, 8);
        lemma_be_value_bound(old(reader).bytes().take(k as int));
        assert((0 as nat + 1) * pow256(k as nat) == pow256(k as nat)) by (nonlinear_arith);
        assert(0 as nat * pow256(k as nat) == 0) by (nonlinear_arith);
    }
    read_be_seeded(reader, 0, k)
}

/// Reads one byte and discards it.
pub fn read_conv<S: SaveFile>(reader: &mut S) -> (r: Result<(), LoadError>)
    requires
        old(reader).wf(),
    ensures
        final(reader).wf(),
        match r {
            Ok(()) => old(reader).bytes().len() >= 1 && final(reader).bytes() == old(reader).bytes().skip(1),
            Err(e) => old(reader).bytes().len() == 0 && e == LoadError::UnexpectedEnd && final(reader).bytes() == old(reader).bytes(),
        },
{
    match reader.read_u8() {
        Ok(_) => Ok(()),
        Err(e) => Err(e),
    }
}

/// Decodes the variable-length ("gamma") unsigned integer at the front of the
/// source.
///
/// The first byte's high bit, and then each next-lower bit down to bit 4,
/// announce one extension byte each; a fifth announcement (bits 7 through 3
/// all set) is malformed. The cleared first byte is the most significant part,
/// extension bytes follow big-endian.
pub fn read_gamma<S: SaveFile>(reader: &mut S) -> (r: Result<u64, LoadError>)
    requires
        old(reader).wf(),
    ensures
        final(reader).wf(),
        match r {
            Ok(v) => gamma_ok(old(reader).bytes()) && v as nat == gamma_value(old(reader).bytes())
                && v < 0x8_0000_0000 && final(reader).bytes() == old(reader).bytes().skip(
                gamma_size(old(reader).bytes()) as int,
            ),
            Err(e) => !gamma_ok(old(reader).bytes()) && e == gamma_err(old(reader).bytes())
                && is_suffix_of(final(reader).bytes(), old(reader).bytes()),
        },
{
    let ghost s0 = old(reader).bytes();
    let b0 = match reader.read_u8() {
        Ok(b) => b,
        Err(e) => {
            return Err(e);
        },
    };
    let (first, k): (u64, usize) = if !has_bit(b0 as u64, 7) {
        (b0 as u64, 0)
    } else if !has_bit(b0 as u64, 6) {
        ((b0 & 0x3f) as u64, 1)
    } else if !has_bit(b0 as u64, 5) {
        ((b0 & 0x1f) as u64, 2)
    } else if !has_bit(b0 as u64, 4) {
        ((b0 & 0x0f) as u64, 3)
    } else if !has_bit(b0 as u64, 3) {
        ((b0 & 0x07) as u64, 4)
    } else {
        proof {
            assert((b0 as u64 & (1u64 << 7) != 0 && b0 as u64 & (1u64 << 6) != 0 && b0 as u64 & (
            1u64 << 5) != 0 && b0 as u64 & (1u64 << 4) != 0 && b0 as u64 & (1u64 << 3) != 0)
                ==> b0 & 0xf8 == 0xf8) by (bit_vector);
        }
        return Err(LoadError::MalformedGamma);
    };
    proof {
        lemma_gamma_bits(b0, first, k);
        lemma_pow256_values();
        lemma_pow256_mono(k as nat, 4);
        lemma_mul_inequality(pow256(k as nat) as int, pow256(4) as int, (first + 1) as int);
        lemma_mul_inequality((first + 1) as int, 0x80, pow256(4) as int);
        assert(reader.bytes() =~= s0.skip(1));
        assert(s0.skip(1) =~= reader.bytes());
    }
    let v = match read_be_seeded(reader, first, k) {
        Ok(v) => v,
        Err(e) => {
            proof {
                assert(reader.bytes() =~= s0.skip(1));
            }
            return Err(e);
        },
    };
    proof {
        assert(s0.skip(1).take(k as int) =~= s0.subrange(1, 1 + k));
        assert(s0.skip(1).skip(k as int) =~= s0.skip(1 + k));
        lemma_gamma_value_bound(s0);
    }
    Ok(v)
}

/// The branch conditions of `read_gamma` match the gamma spec functions.
proof fn lemma_gamma_bits(b0: u8, first: u64, k: usize)
    requires
        ({
            ||| (k == 0 && first == b0 as u64 && b0 as u64 & (1u64 << 7) == 0)
            ||| (k == 1 && first == (b0 & 0x3f) as u64 && b0 as u64 & (1u64 << 7) != 0 && b0 as u64
                & (1u64 << 6) == 0)
            ||| (k == 2 && first == (b0 & 0x1f) as u64 && b0 as u64 & (1u64 << 7) != 0 && b0 as u64
                & (1u64 << 6) != 0 && b0 as u64 & (1u64 << 5) == 0)
            ||| (k == 3 && first == (b0 & 0x0f) as u64 && b0 as u64 & (1u64 << 7) != 0 && b0 as u64
                & (1u64 << 6) != 0 && b0 as u64 & (1u64 << 5) != 0 && b0 as u64 & (1u64 << 4) == 0)
            ||| (k == 4 && first == (b0 & 0x07) as u64 && b0 as u64 & (1u64 << 7) != 0 && b0 as u64
                & (1u64 << 6) != 0 && b0 as u64 & (1u64 << 5) != 0 && b0 as u64 & (1u64 << 4) != 0
                && b0 as u64 & (1u64 << 3) == 0)
        }),
    ensures
        !gamma_malformed(b0),
        k as nat == gamma_ext_count(b0),
        first as nat == gamma_first_value(b0),
        first < 0x80,
{
    assert((b0 as u64 & (1u64 << 7) == 0) == (b0 & 0x80 == 0)) by (bit_vector);
    assert((b0 as u64 & (1u64 << 6) == 0) == (b0 & 0x40 == 0)) by (bit_vector);
    assert((b0 as u64 & (1u64 << 5) == 0) == (b0 & 0x20 == 0)) by (bit_vector);
    assert((b0 as u64 & (1u64 << 4) == 0) == (b0 & 0x10 == 0)) by (bit_vector);
    assert((b0 as u64 & (1u64 << 3) == 0) == (b0 & 0x08 == 0)) by (bit_vector);
    assert(b0 & 0x80 == 0 ==> b0 < 0x80) by (bit_vector);
    assert((b0 & 0x3f) < 0x40 && (b0 & 0x1f) < 0x20 && (b0 & 0x0f) < 0x10 && (b0 & 0x07) < 0x08)
        by (bit_vector);
    assert((b0 & 0xf8 == 0xf8) ==> (b0 & 0x80 != 0 && b0 & 0x40 != 0 && b0 & 0x20 != 0 && b0 & 0x10
        != 0 && b0 & 0x08 != 0)) by (bit_vector);
}

/// The low `k` bytes of `m`, big-endian.
pub open spec fn be_bytes(m: nat, k: nat) -> Seq<u8>
    decreases k,
{
    if k == 0 {
        Seq::empty()
    } else {
        be_bytes(m / 256, (k - 1) as nat) + seq![(m % 256) as u8]
    }
}

pub proof fn lemma_be_bytes_value(m: nat, k: nat)
    ensures
        be_bytes(m, k).len() == k,
        be_value(be_bytes(m, k)) == m % pow256(k),
    decreases k,
{
    if k == 0 {
        assert(m % 1 == 0) by (nonlinear_arith);
    } else {
        let b = be_bytes(m, k);
        lemma_be_bytes_value(m / 256, (k - 1) as nat);
        assert(b.drop_last() =~= be_bytes(m / 256, (k - 1) as nat));
        assert(b.last() == (m % 256) as u8);
        lemma_pow256_mono(0, (k - 1) as nat);
        vstd::arithmetic::div_mod::lemma_mod_breakdown(m as int, 256, pow256((k - 1) as nat) as int);
        assert(pow256(k) == 256 * pow256((k - 1) as nat));
    }
}

/// Reading a big-endian number back into bytes reproduces the bytes.
pub proof fn lemma_be_bytes_of_value(t: Seq<u8>)
    ensures
        be_bytes(be_value(t), t.len()) == t,
    decreases t.len(),
{
    if t.len() == 0 {
        assert(be_bytes(0, 0) =~= t);
    } else {
        lemma_be_bytes_of_value(t.drop_last());
        vstd::arithmetic::div_mod::lemma_fundamental_div_mod_converse(
            be_value(t) as int,
            256,
            be_value(t.drop_last()) as int,
            t.last() as int,
        );
        assert(be_bytes(be_value(t), t.len()) =~= t);
    }
}

/// How many extension bytes the shortest gamma encoding of `n` needs.
pub open spec fn gamma_ext_len(n: nat) -> nat {
    if n < 0x80 {
        0
    } else if n < 0x4000 {
        1
    } else if n < 0x20_0000 {
        2
    } else if n < 0x1000_0000 {
        3
    } else {
        4
    }
}

/// The escape bits announcing `k` extension bytes.
pub open spec fn gamma_prefix(k: nat) -> u8 {
    if k == 0 {
        0
    } else if k == 1 {
        0x80
    } else if k == 2 {
        0xc0
    } else if k == 3 {
        0xe0
    } else {
        0xf0
    }
}

/// The shortest gamma encoding of `n`: the high bits of `n` joined with the
/// escape prefix in the first byte, then the low bytes big-endian.
pub open spec fn gamma_encode(n: nat) -> Seq<u8> {
    let k = gamma_ext_len(n);
    seq![(gamma_prefix(k) + n / pow256(k)) as u8] + be_bytes(n, k)
}

/// Decoding inverts encoding: for every representable value, the gamma
/// encoding decodes back to that value exactly, consuming the whole encoding.
pub proof fn lemma_gamma_round_trip(n: nat)
    requires
        n < 0x8_0000_0000,
    ensures
        gamma_ok(gamma_encode(n)),
        gamma_value(gamma_encode(n)) == n,
        gamma_size(gamma_encode(n)) == gamma_encode(n).len(),
        gamma_encode(n).len() == 1 + gamma_ext_len(n),
{
    let k = gamma_ext_len(n);
    let s = gamma_encode(n);
    lemma_pow256_values();
    let q = (n / pow256(k)) as u8;
    let b0 = s[0];
    lemma_be_bytes_value(n, k);
    assert(b0 == gamma_prefix(k) + q);
    if k == 0 {
        assert(n / 1 == n) by (nonlinear_arith);
        assert(b0 == n);
        assert(b0 & 0x80 == 0 && !(b0 & 0xf8 == 0xf8)) by (bit_vector)
            requires
                b0 < 0x80,
        ;
    } else if k == 1 {
        assert(q < 0x40) by {
            assert(n / 0x100 < 0x40) by (nonlinear_arith)
                requires
                    n < 0x4000,
            ;
        }
        assert(b0 & 0x80 != 0 && b0 & 0x40 == 0 && (b0 & 0x3f) == q && !(b0 & 0xf8 == 0xf8))
            by (bit_vector)
            requires
                b0 == 0x80 + q && q < 0x40,
        ;
    } else if k == 2 {
        assert(q < 0x20) by {
            assert(n / 0x1_0000 < 0x20) by (nonlinear_arith)
                requires
                    n < 0x20_0000,
            ;
        }
        assert(b0 & 0x80 != 0 && b0 & 0x40 != 0 && b0 & 0x20 == 0 && (b0 & 0x1f) == q && !(b0
            & 0xf8 == 0xf8)) by (bit_vector)
            requires
                b0 == 0xc0 + q && q < 0x20,
        ;
    } else if k == 3 {
        assert(q < 0x10) by {
            assert(n / 0x100_0000 < 0x10) by (nonlinear_arith)
                requires
                    n < 0x1000_0000,
            ;
        }
        assert(b0 & 0x80 != 0 && b0 & 0x40 != 0 && b0 & 0x20 != 0 && b0 & 0x10 == 0 && (b0 & 0x0f)
            == q && !(b0 & 0xf8 == 0xf8)) by (bit_vector)
            requires
                b0 == 0xe0 + q && q < 0x10,
        ;
    } else {
        assert(q < 0x08) by {
            assert(n / 0x1_0000_0000 < 0x08) by (nonlinear_arith)
                requires
                    n < 0x8_0000_0000,
            ;
        }
        assert(b0 & 0x80 != 0 && b0 & 0x40 != 0 && b0 & 0x20 != 0 && b0 & 0x10 != 0 && b0 & 0x08
            == 0 && (b0 & 0x07) == q && !(b0 & 0xf8 == 0xf8)) by (bit_vector)
            requires
                b0 == 0xf0 + q && q < 0x08,
        ;
    }
    assert(gamma_ext_count(b0) == k);
    assert(gamma_first_value(b0) == q);
    assert(s.subrange(1, 1 + k as int) =~= be_bytes(n, k));
    vstd::arithmetic::div_mod::lemma_fundamental_div_mod(n as int, pow256(k) as int);
}

/// A first byte announcing a fifth escape level never decodes: it is the one
/// malformed shape, and it is rejected as such however many bytes follow.
pub proof fn lemma_gamma_fifth_escape_fails(s: Seq<u8>)
    requires
        s.len() > 0,
        s[0] & 0xf8 == 0xf8,
    ensures
        !gamma_ok(s),
        gamma_err(s) == LoadError::MalformedGamma,
{
}

/// The string read at the front of `s`: a gamma length, then that many bytes
/// decoded as UTF-8.
pub open spec fn spec_read_str(s: Seq<u8>) -> Result<(Seq<char>, nat), LoadError> {
    if !gamma_ok(s) {
        Err(gamma_err(s))
    } else {
        let n = gamma_value(s);
        let sz = gamma_size(s);
        if s.len() < sz + n {
            Err(LoadError::UnexpectedEnd)
        } else {
            let b = s.subrange(sz as int, (sz + n) as int);
            if valid_utf8(b) {
                Ok((decode_utf8(b), sz + n))
            } else {
                Err(LoadError::InvalidUtf8)
            }
        }
    }
}

/// Relies on std::str::from_utf8: it accepts exactly the byte sequences that
/// vstd's UTF-8 model calls valid, and yields the characters that model
/// decodes them to.
#[verifier::external_body]
pub(crate) fn utf8_to_str(bytes: &Vec<u8>) -> (r: Option<&str>)
    ensures
        match r {
            Some(s) => valid_utf8(bytes@) && s@ == decode_utf8(bytes@),
            None => !valid_utf8(bytes@),
        },
{
    match std::str::from_utf8(bytes.as_slice()) {
        Ok(s) => Some(s),
        Err(_) => None,
    }
}

/// Reads `n` raw bytes and decodes them as UTF-8; the length comes from the
/// caller, not from the stream.
pub fn read_str_raw<S: SaveFile>(reader: &mut S, n: u64) -> (r: Result<String, LoadError>)
    requires
        old(reader).wf(),
    ensures
        final(reader).wf(),
        match r {
            Ok(v) => n <= old(reader).bytes().len()
                && valid_utf8(old(reader).bytes().take(n as int))
                && v@ == decode_utf8(old(reader).bytes().take(n as int))
                && final(reader).bytes() == old(reader).bytes().skip(n as int),
            Err(e) => (old(reader).bytes().len() < n && e == LoadError::UnexpectedEnd
                && final(reader).bytes() == old(reader).bytes())
                || (n <= old(reader).bytes().len()
                && !valid_utf8(old(reader).bytes().take(n as int))
                && e == LoadError::InvalidUtf8
                && final(reader).bytes() == old(reader).bytes().skip(n as int)),
        },
{
    if n > usize::MAX as u64 {
        proof {
            reader.bytes_bounded();
        }
        return Err(LoadError::UnexpectedEnd);
    }
    let buf = match reader.read_exact(n as usize) {
        Ok(v) => v,
        Err(e) => {
            return Err(e);
        },
    };
    match utf8_to_str(&buf) {
        Some(s) => Ok(s.to_owned()),
        None => Err(LoadError::InvalidUtf8),
    }
}

/// Reads a length-prefixed UTF-8 string: a gamma-encoded byte count, then
/// that many bytes.
pub fn read_str<S: SaveFile>(reader: &mut S) -> (r: Result<String, LoadError>)
    requires
        old(reader).wf(),
    ensures
        final(reader).wf(),
        match r {
            Ok(v) => spec_read_str(old(reader).bytes()) matches Ok(p) && v@ == p.0 && final(reader).bytes() == old(reader).bytes().skip(p.1 as int),
            Err(e) => spec_read_str(old(reader).bytes()) matches Err(e2) && e == e2 && is_suffix_of(final(reader).bytes(), old(reader).bytes()),
        },
{
    let ghost s0 = old(reader).bytes();
    let len = match read_gamma(reader) {
        Ok(v) => v,
        Err(e) => {
            return Err(e);
        },
    };
    let ghost g = gamma_size(s0);
    let r = read_str_raw(reader, len);
    proof {
        crate::common::lemma_skip_is_suffix(s0, g as int);
        if s0.skip(g as int).len() >= len {
            assert(s0.skip(g as int).take(len as int) =~= s0.subrange(g as int, g + len as int));
            assert(s0.skip(g as int).skip(len as int) =~= s0.skip(g + len as int));
            crate::common::lemma_skip_is_suffix(s0, g + len as int);
        }
    }
    r
}

} // verus!
