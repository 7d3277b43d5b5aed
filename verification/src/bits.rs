//! Fixed-width big-endian integers and MSB-first bit packing.
//!
//! The container format stores two kinds of low-level data: 64-bit lengths as
//! eight big-endian bytes, and bit sequences packed MSB-first into bytes with
//! zero padding up to the next byte boundary.  Both directions are verified
//! against the spec functions below.

use vstd::prelude::*;

verus! {

use vstd::arithmetic::div_mod::lemma_fundamental_div_mod;
use vstd::arithmetic::div_mod::lemma_fundamental_div_mod_converse;
use vstd::std_specs::vec::axiom_spec_len;
use vstd::std_specs::vec::spec_vec_len;

/// A vector never holds more elements than `usize` can count.
pub proof fn lemma_vec_len_bound<T>(v: &Vec<T>)
    ensures
        v@.len() <= usize::MAX,
{
    broadcast use axiom_spec_len;

    assert(spec_vec_len(v) == v@.len());
}

// ------------------------------------------------------------------
// 64-bit big-endian integers
// ------------------------------------------------------------------

/// The `n` least-significant base-256 digits of `x`, most significant first.
pub open spec fn be_rec(x: nat, n: nat) -> Seq<u8>
    decreases n,
{
    if n == 0 {
        Seq::empty()
    } else {
        be_rec(x / 256, (n - 1) as nat).push((x % 256) as u8)
    }
}

/// A `u64` as exactly eight big-endian bytes.
pub open spec fn u64_be_bytes(x: u64) -> Seq<u8> {
    be_rec(x as nat, 8)
}

/// The value of a byte sequence read as a big-endian integer.
pub open spec fn bytes_val(s: Seq<u8>) -> nat
    decreases s.len(),
{
    if s.len() == 0 {
        0
    } else {
        (bytes_val(s.drop_last()) * 256 + s.last()) as nat
    }
}

pub open spec fn pow256(n: nat) -> nat
    decreases n,
{
    if n == 0 {
        1
    } else {
        256 * pow256((n - 1) as nat)
    }
}

pub proof fn lemma_be_rec_len(x: nat, n: nat)
    ensures
        be_rec(x, n).len() == n,
    decreases n,
{
    if n > 0 {
        lemma_be_rec_len(x / 256, (n - 1) as nat);
    }
}

pub proof fn lemma_pow256_bounds()
    ensures
        forall|i: nat, j: nat| i <= j ==> #[trigger] pow256(i) <= #[trigger] pow256(j),
        pow256(8) == 0x1_0000_0000_0000_0000,
{
    reveal_with_fuel(pow256, 9);
    assert(pow256(8) == 0x1_0000_0000_0000_0000);
    assert forall|i: nat, j: nat| i <= j implies #[trigger] pow256(i) <= #[trigger] pow256(j) by {
        lemma_pow256_mono(i, j);
    }
}

proof fn lemma_pow256_pos(n: nat)
    ensures
        pow256(n) >= 1,
    decreases n,
{
    if n > 0 {
        lemma_pow256_pos((n - 1) as nat);
    }
}

proof fn lemma_pow256_mono(i: nat, j: nat)
    requires
        i <= j,
    ensures
        pow256(i) <= pow256(j),
    decreases j,
{
    lemma_pow256_pos(i);
    if i < j {
        lemma_pow256_mono(i, (j - 1) as nat);
    }
}

/// A byte sequence of length `n` denotes a value below `pow256(n)`.
pub proof fn lemma_bytes_val_bound(s: Seq<u8>)
    ensures
        bytes_val(s) < pow256(s.len()),
    decreases s.len(),
{
    if s.len() > 0 {
        lemma_bytes_val_bound(s.drop_last());
        assert(pow256(s.len()) == 256 * pow256((s.len() - 1) as nat));
    }
}

/// Reading back the big-endian digits of `x` yields `x` again.
pub proof fn lemma_bytes_val_be_rec(x: nat, n: nat)
    requires
        x < pow256(n),
    ensures
        bytes_val(be_rec(x, n)) == x,
    decreases n,
{
    if n == 0 {
    } else {
        lemma_be_rec_len(x / 256, (n - 1) as nat);
        assert(be_rec(x, n).drop_last() =~= be_rec(x / 256, (n - 1) as nat));
        lemma_fundamental_div_mod(x as int, 256);
        assert(pow256(n) == 256 * pow256((n - 1) as nat));
        lemma_bytes_val_be_rec(x / 256, (n - 1) as nat);
    }
}

fn be_exec(x: u64, n: usize) -> (r: Vec<u8>)
    ensures
        r@ == be_rec(x as nat, n as nat),
        r@.len() == n,
    decreases n,
{
    if n == 0 {
        Vec::new()
    } else {
        let mut r = be_exec(x / 256, n - 1);
        r.push((x % 256) as u8);
        r
    }
}

/// A `u64` written as eight big-endian bytes.
pub fn u64_to_be_vec(x: u64) -> (r: Vec<u8>)
    ensures
        r@ == u64_be_bytes(x),
        r@.len() == 8,
{
    be_exec(x, 8)
}

/// Eight big-endian bytes starting at `start`, read back as a `u64`.
pub fn be_u64_at(bytes: &Vec<u8>, start: usize) -> (r: u64)
    requires
        start + 8 <= bytes@.len(),
    ensures
        r as nat == bytes_val(bytes@.subrange(start as int, start as int + 8)),
{
    let ghost full = bytes@.subrange(start as int, start as int + 8);
    let blen = bytes.len();
    let mut acc: u64 = 0;
    let mut i: usize = 0;
    proof {
        lemma_pow256_bounds();
    }
    while i < 8
        invariant
            blen == bytes@.len(),
            start + 8 <= blen,
            i <= 8,
            acc as nat == bytes_val(bytes@.subrange(start as int, start as int + i as int)),
            (acc as nat) < pow256(i as nat),
            forall|a: nat, b: nat| a <= b ==> #[trigger] pow256(a) <= #[trigger] pow256(b),
            pow256(8) == 0x1_0000_0000_0000_0000,
        decreases 8 - i,
    {
        let ghost prev = bytes@.subrange(start as int, start as int + i as int);
        let ghost cur = bytes@.subrange(start as int, start as int + i as int + 1);
        proof {
            assert(cur.drop_last() =~= prev);
            assert(cur.last() == bytes@[start as int + i as int]);
            assert(pow256((i + 1) as nat) == 256 * pow256(i as nat));
            assert(pow256((i + 1) as nat) <= pow256(8));
        }
        acc = acc * 256 + (bytes[start + i] as u64);
        i += 1;
    }
    proof {
        assert(bytes@.subrange(start as int, start as int + 8) =~= full);
    }
    acc
}

// ------------------------------------------------------------------
// MSB-first bit packing
// ------------------------------------------------------------------

/// Bit `i` of a logical bit sequence, reading zero past its end (the padding
/// added when packing to a byte boundary).
pub open spec fn bit_seq_padded(bits: Seq<bool>, i: int) -> bool {
    if 0 <= i < bits.len() {
        bits[i]
    } else {
        false
    }
}

/// A byte assembled from eight bits, most significant (earliest) first.
pub open spec fn byte_from_bits(
    b0: bool,
    b1: bool,
    b2: bool,
    b3: bool,
    b4: bool,
    b5: bool,
    b6: bool,
    b7: bool,
) -> u8 {
    ((if b0 { 128int } else { 0 }) + (if b1 { 64int } else { 0 }) + (if b2 { 32int } else { 0 })
        + (if b3 { 16int } else { 0 }) + (if b4 { 8int } else { 0 }) + (if b5 { 4int } else { 0 })
        + (if b6 { 2int } else { 0 }) + (if b7 { 1int } else { 0 })) as u8
}

/// Bit `k` of a byte, MSB first (`k` ranges over `0..8`).
pub open spec fn nth_bit(b: u8, k: int) -> bool {
    if k == 0 {
        b / 128 % 2 == 1
    } else if k == 1 {
        b / 64 % 2 == 1
    } else if k == 2 {
        b / 32 % 2 == 1
    } else if k == 3 {
        b / 16 % 2 == 1
    } else if k == 4 {
        b / 8 % 2 == 1
    } else if k == 5 {
        b / 4 % 2 == 1
    } else if k == 6 {
        b / 2 % 2 == 1
    } else {
        b % 2 == 1
    }
}

/// How many bytes a bit sequence of length `nbits` occupies when packed.
pub open spec fn byte_count(nbits: nat) -> nat {
    (nbits + 7) / 8
}

/// A bit sequence packed MSB-first into bytes, zero-padded to a byte boundary.
pub open spec fn pack_spec(bits: Seq<bool>) -> Seq<u8> {
    Seq::new(
        byte_count(bits.len()),
        |j: int|
            byte_from_bits(
                bit_seq_padded(bits, 8 * j),
                bit_seq_padded(bits, 8 * j + 1),
                bit_seq_padded(bits, 8 * j + 2),
                bit_seq_padded(bits, 8 * j + 3),
                bit_seq_padded(bits, 8 * j + 4),
                bit_seq_padded(bits, 8 * j + 5),
                bit_seq_padded(bits, 8 * j + 6),
                bit_seq_padded(bits, 8 * j + 7),
            ),
    )
}

/// The first `nbits` bits of a packed byte sequence, MSB first in each byte.
pub open spec fn unpack_spec(bytes: Seq<u8>, nbits: nat) -> Seq<bool> {
    Seq::new(nbits, |i: int| nth_bit(bytes[i / 8], i % 8))
}

/// Each bit written into a byte by `byte_from_bits` is read back by `nth_bit`.
pub proof fn lemma_nth_bit_of_byte(
    b0: bool,
    b1: bool,
    b2: bool,
    b3: bool,
    b4: bool,
    b5: bool,
    b6: bool,
    b7: bool,
)
    ensures
        nth_bit(byte_from_bits(b0, b1, b2, b3, b4, b5, b6, b7), 0) == b0,
        nth_bit(byte_from_bits(b0, b1, b2, b3, b4, b5, b6, b7), 1) == b1,
        nth_bit(byte_from_bits(b0, b1, b2, b3, b4, b5, b6, b7), 2) == b2,
        nth_bit(byte_from_bits(b0, b1, b2, b3, b4, b5, b6, b7), 3) == b3,
        nth_bit(byte_from_bits(b0, b1, b2, b3, b4, b5, b6, b7), 4) == b4,
        nth_bit(byte_from_bits(b0, b1, b2, b3, b4, b5, b6, b7), 5) == b5,
        nth_bit(byte_from_bits(b0, b1, b2, b3, b4, b5, b6, b7), 6) == b6,
        nth_bit(byte_from_bits(b0, b1, b2, b3, b4, b5, b6, b7), 7) == b7,
{
    let x0: int = if b0 { 1 } else { 0 };
    let x1: int = if b1 { 1 } else { 0 };
    let x2: int = if b2 { 1 } else { 0 };
    let x3: int = if b3 { 1 } else { 0 };
    let x4: int = if b4 { 1 } else { 0 };
    let x5: int = if b5 { 1 } else { 0 };
    let x6: int = if b6 { 1 } else { 0 };
    let x7: int = if b7 { 1 } else { 0 };
    let v: int = x0 * 128 + x1 * 64 + x2 * 32 + x3 * 16 + x4 * 8 + x5 * 4 + x6 * 2 + x7;
    assert(byte_from_bits(b0, b1, b2, b3, b4, b5, b6, b7) == v as u8);
    lemma_fundamental_div_mod_converse(v, 128, x0, x1 * 64 + x2 * 32 + x3 * 16 + x4 * 8 + x5 * 4 + x6 * 2 + x7);
    lemma_fundamental_div_mod_converse(x0, 2, 0, x0);
    lemma_fundamental_div_mod_converse(v, 64, x0 * 2 + x1, x2 * 32 + x3 * 16 + x4 * 8 + x5 * 4 + x6 * 2 + x7);
    lemma_fundamental_div_mod_converse(x0 * 2 + x1, 2, x0, x1);
    lemma_fundamental_div_mod_converse(v, 32, x0 * 4 + x1 * 2 + x2, x3 * 16 + x4 * 8 + x5 * 4 + x6 * 2 + x7);
    lemma_fundamental_div_mod_converse(x0 * 4 + x1 * 2 + x2, 2, x0 * 2 + x1, x2);
    lemma_fundamental_div_mod_converse(v, 16, x0 * 8 + x1 * 4 + x2 * 2 + x3, x4 * 8 + x5 * 4 + x6 * 2 + x7);
    lemma_fundamental_div_mod_converse(x0 * 8 + x1 * 4 + x2 * 2 + x3, 2, x0 * 4 + x1 * 2 + x2, x3);
    lemma_fundamental_div_mod_converse(v, 8, x0 * 16 + x1 * 8 + x2 * 4 + x3 * 2 + x4, x5 * 4 + x6 * 2 + x7);
    lemma_fundamental_div_mod_converse(x0 * 16 + x1 * 8 + x2 * 4 + x3 * 2 + x4, 2, x0 * 8 + x1 * 4 + x2 * 2 + x3, x4);
    lemma_fundamental_div_mod_converse(v, 4, x0 * 32 + x1 * 16 + x2 * 8 + x3 * 4 + x4 * 2 + x5, x6 * 2 + x7);
    lemma_fundamental_div_mod_converse(x0 * 32 + x1 * 16 + x2 * 8 + x3 * 4 + x4 * 2 + x5, 2, x0 * 16 + x1 * 8 + x2 * 4 + x3 * 2 + x4, x5);
    lemma_fundamental_div_mod_converse(v, 2, x0 * 64 + x1 * 32 + x2 * 16 + x3 * 8 + x4 * 4 + x5 * 2 + x6, x7);
    lemma_fundamental_div_mod_converse(x0 * 64 + x1 * 32 + x2 * 16 + x3 * 8 + x4 * 4 + x5 * 2 + x6, 2, x0 * 32 + x1 * 16 + x2 * 8 + x3 * 4 + x4 * 2 + x5, x6);
    lemma_fundamental_div_mod_converse(v, 1, v, 0);
    lemma_fundamental_div_mod_converse(v, 2, x0 * 64 + x1 * 32 + x2 * 16 + x3 * 8 + x4 * 4 + x5 * 2 + x6, x7);
}

proof fn lemma_div8_in_range(i: int, n: int)
    requires
        0 <= i < n,
    ensures
        0 <= i / 8 < (n + 7) / 8,
        0 <= i % 8 < 8,
        i == 8 * (i / 8) + i % 8,
{
    lemma_fundamental_div_mod(i, 8);
    lemma_fundamental_div_mod(n + 7, 8);
}

/// Unpacking a packed bit sequence at its own length yields it back.
pub proof fn lemma_unpack_pack(bits: Seq<bool>)
    ensures
        unpack_spec(pack_spec(bits), bits.len()) == bits,
{
    let packed = pack_spec(bits);
    assert forall|i: int| 0 <= i < bits.len() implies unpack_spec(packed, bits.len())[i]
        == bits[i] by {
        lemma_div8_in_range(i, bits.len() as int);
        let j = i / 8;
        let k = i % 8;
        lemma_nth_bit_of_byte(
            bit_seq_padded(bits, 8 * j),
            bit_seq_padded(bits, 8 * j + 1),
            bit_seq_padded(bits, 8 * j + 2),
            bit_seq_padded(bits, 8 * j + 3),
            bit_seq_padded(bits, 8 * j + 4),
            bit_seq_padded(bits, 8 * j + 5),
            bit_seq_padded(bits, 8 * j + 6),
            bit_seq_padded(bits, 8 * j + 7),
        );
        assert(nth_bit(packed[j], k) == bit_seq_padded(bits, 8 * j + k));
    }
    assert(unpack_spec(packed, bits.len()) =~= bits);
}

/// Bit `base + k` of `bits`, reading zero past the end.
fn get_padded(bits: &Vec<bool>, base: usize, k: usize) -> (r: bool)
    requires
        base < bits@.len(),
        k < 8,
    ensures
        r == bit_seq_padded(bits@, base + k),
{
    let rem = bits.len() - base;
    if k < rem {
        bits[base + k]
    } else {
        false
    }
}

/// Packs a bit sequence MSB-first into bytes, zero-padded at the end.
pub fn pack_bits(bits: &Vec<bool>) -> (r: Vec<u8>)
    ensures
        r@ == pack_spec(bits@),
{
    let n = bits.len();
    let num_bytes = n / 8 + (if n % 8 != 0 { 1 } else { 0 });
    proof {
        lemma_fundamental_div_mod(n as int, 8);
        lemma_fundamental_div_mod(n as int + 7, 8);
        if n % 8 != 0 {
            lemma_fundamental_div_mod_converse(n as int + 7, 8, n as int / 8 + 1, n as int % 8 - 1);
        } else {
            lemma_fundamental_div_mod_converse(n as int + 7, 8, n as int / 8, 7);
        }
        assert(num_bytes as nat == byte_count(bits@.len()));
    }
    let mut r: Vec<u8> = Vec::new();
    let mut j: usize = 0;
    while j < num_bytes
        invariant
            num_bytes as nat == byte_count(bits@.len()),
            n == bits@.len(),
            8 * j <= n + 7,
            j <= num_bytes,
            r@.len() == j,
            forall|jj: int| 0 <= jj < j ==> r@[jj] == pack_spec(bits@)[jj],
        decreases num_bytes - j,
    {
        proof {
            lemma_fundamental_div_mod(n as int + 7, 8);
        }
        let base = 8 * j;
        proof {
            assert(base < n);
        }
        let b: u8 = (if get_padded(bits, base, 0) { 128u8 } else { 0u8 })
            + (if get_padded(bits, base, 1) { 64u8 } else { 0u8 })
            + (if get_padded(bits, base, 2) { 32u8 } else { 0u8 })
            + (if get_padded(bits, base, 3) { 16u8 } else { 0u8 })
            + (if get_padded(bits, base, 4) { 8u8 } else { 0u8 })
            + (if get_padded(bits, base, 5) { 4u8 } else { 0u8 })
            + (if get_padded(bits, base, 6) { 2u8 } else { 0u8 })
            + (if get_padded(bits, base, 7) { 1u8 } else { 0u8 });
        r.push(b);
        j += 1;
    }
    proof {
        assert(r@ =~= pack_spec(bits@));
    }
    r
}

/// Bit `k` (MSB first) of the byte `b`.
fn nth_bit_exec(b: u8, k: usize) -> (r: bool)
    requires
        k < 8,
    ensures
        r == nth_bit(b, k as int),
{
    if k == 0 {
        b / 128 % 2 == 1
    } else if k == 1 {
        b / 64 % 2 == 1
    } else if k == 2 {
        b / 32 % 2 == 1
    } else if k == 3 {
        b / 16 % 2 == 1
    } else if k == 4 {
        b / 8 % 2 == 1
    } else if k == 5 {
        b / 4 % 2 == 1
    } else if k == 6 {
        b / 2 % 2 == 1
    } else {
        b % 2 == 1
    }
}

/// Reads `nbits` bits, MSB first, from the packed bytes starting at `start`.
pub fn unpack_bits(bytes: &Vec<u8>, start: usize, nbits: usize) -> (r: Vec<bool>)
    requires
        start + byte_count(nbits as nat) <= bytes@.len(),
    ensures
        r@ == unpack_spec(
            bytes@.subrange(start as int, start as int + byte_count(nbits as nat) as int),
            nbits as nat,
        ),
{
    let ghost window = bytes@.subrange(
        start as int,
        start as int + byte_count(nbits as nat) as int,
    );
    let blen = bytes.len();
    let mut r: Vec<bool> = Vec::new();
    let mut i: usize = 0;
    while i < nbits
        invariant
            blen == bytes@.len(),
            start + byte_count(nbits as nat) <= blen,
            window == bytes@.subrange(
                start as int,
                start as int + byte_count(nbits as nat) as int,
            ),
            i <= nbits,
            r@.len() == i,
            forall|ii: int| 0 <= ii < i ==> r@[ii] == unpack_spec(window, nbits as nat)[ii],
        decreases nbits - i,
    {
        proof {
            lemma_div8_in_range(i as int, nbits as int);
        }
        let byte = bytes[start + i / 8];
        let bit = nth_bit_exec(byte, i % 8);
        proof {
            assert(window[i as int / 8] == bytes@[start as int + i as int / 8]);
        }
        r.push(bit);
        i += 1;
    }
    proof {
        assert(r@ =~= unpack_spec(window, nbits as nat));
    }
    r
}

/// `byte_count`, computed without overflow on a `u64` bit length.
pub fn byte_count_exec(nbits: u64) -> (r: u64)
    ensures
        r as nat == byte_count(nbits as nat),
{
    let r = nbits / 8 + (if nbits % 8 != 0 { 1 } else { 0 });
    proof {
        lemma_fundamental_div_mod(nbits as int, 8);
        if nbits % 8 != 0 {
            lemma_fundamental_div_mod_converse(
                nbits as int + 7,
                8,
                nbits as int / 8 + 1,
                nbits as int % 8 - 1,
            );
        } else {
            lemma_fundamental_div_mod_converse(nbits as int + 7, 8, nbits as int / 8, 7);
        }
    }
    r
}

} // verus!
