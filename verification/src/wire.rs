//! Byte-level primitives shared by the codec and the walk engine: reading and
//! writing multi-byte integers in either byte order.

use vstd::prelude::*;
use vstd::arithmetic::div_mod::{lemma_div_denominator, lemma_fundamental_div_mod};

verus! {

/// `256^n`.
pub open spec fn pow256(n: nat) -> nat
    decreases n,
{
    if n == 0 {
        1
    } else {
        256 * pow256((n - 1) as nat)
    }
}

/// The big-endian value of a byte string: the first byte is the most
/// significant.
pub open spec fn be_val(s: Seq<u8>) -> nat
    decreases s.len(),
{
    if s.len() == 0 {
        0
    } else {
        (be_val(s.drop_last()) * 256 + s.last()) as nat
    }
}

/// The little-endian value of a byte string: the first byte is the least
/// significant.
pub open spec fn le_val(s: Seq<u8>) -> nat
    decreases s.len(),
{
    if s.len() == 0 {
        0
    } else {
        (s.first() + 256 * le_val(s.drop_first())) as nat
    }
}

/// The value of a byte string in the given byte order.
pub open spec fn word_val(s: Seq<u8>, big: bool) -> nat {
    if big {
        be_val(s)
    } else {
        le_val(s)
    }
}

/// The `len` bytes that encode `v` little-endian.
pub open spec fn word_bytes_le(v: u64, len: nat) -> Seq<u8> {
    Seq::new(len, |i: int| ((v as nat / pow256(i as nat)) % 256) as u8)
}

/// The `len` bytes that encode `v` big-endian.
pub open spec fn word_bytes_be(v: u64, len: nat) -> Seq<u8> {
    Seq::new(len, |i: int| ((v as nat / pow256((len - 1 - i) as nat)) % 256) as u8)
}

/// The `len` bytes that encode `v` in the given byte order.
pub open spec fn word_bytes(v: u64, len: nat, big: bool) -> Seq<u8> {
    if big {
        word_bytes_be(v, len)
    } else {
        word_bytes_le(v, len)
    }
}

pub proof fn lemma_pow256_pos(n: nat)
    ensures
        pow256(n) >= 1,
    decreases n,
{
    if n > 0 {
        lemma_pow256_pos((n - 1) as nat);
    }
}

pub proof fn lemma_pow256_mono(a: nat, b: nat)
    requires
        a <= b,
    ensures
        pow256(a) <= pow256(b),
    decreases b,
{
    if a < b {
        lemma_pow256_mono(a, (b - 1) as nat);
        lemma_pow256_pos((b - 1) as nat);
    }
}

pub proof fn lemma_be_val_bound(s: Seq<u8>)
    ensures
        be_val(s) < pow256(s.len()),
    decreases s.len(),
{
    if s.len() > 0 {
        lemma_be_val_bound(s.drop_last());
    }
}

pub proof fn lemma_le_val_bound(s: Seq<u8>)
    ensures
        le_val(s) < pow256(s.len()),
    decreases s.len(),
{
    if s.len() > 0 {
        lemma_le_val_bound(s.drop_first());
    }
}

proof fn lemma_pow256_u64_range()
    ensures
        pow256(8) == 0x1_0000_0000_0000_0000,
{
    reveal_with_fuel(pow256, 9);
}

/// Reads `len` bytes starting at `pos` as a big-endian integer.
pub fn read_word_be(data: &[u8], pos: usize, len: usize) -> (r: u64)
    requires
        pos + len <= data@.len(),
        len <= 8,
    ensures
        r == be_val(data@.subrange(pos as int, pos + len)),
{
    let dn = data.len();
    let mut acc: u64 = 0;
    let mut i: usize = 0;
    proof {
        assert(data@.subrange(pos as int, pos as int) =~= Seq::<u8>::empty());
    }
    while i < len
        invariant
            i <= len,
            len <= 8,
            dn == data@.len(),
            pos + len <= data@.len(),
            acc == be_val(data@.subrange(pos as int, pos + i)),
        decreases len - i,
    {
        proof {
            lemma_be_val_bound(data@.subrange(pos as int, pos + i));
            lemma_pow256_mono((i + 1) as nat, 8);
            lemma_pow256_u64_range();
            assert(data@.subrange(pos as int, pos + i + 1).drop_last() =~= data@.subrange(
                pos as int,
                pos + i,
            ));
            assert(data@.subrange(pos as int, pos + i + 1).last() == data@[pos + i]);
        }
        acc = acc * 256 + data[pos + i] as u64;
        i = i + 1;
    }
    acc
}

/// Reads `len` bytes starting at `pos` as a little-endian integer.
pub fn read_word_le(data: &[u8], pos: usize, len: usize) -> (r: u64)
    requires
        pos + len <= data@.len(),
        len <= 8,
    ensures
        r == le_val(data@.subrange(pos as int, pos + len)),
{
    let dn = data.len();
    let mut acc: u64 = 0;
    let mut i: usize = len;
    proof {
        assert(data@.subrange(pos + len, pos + len) =~= Seq::<u8>::empty());
    }
    while i > 0
        invariant
            i <= len,
            len <= 8,
            dn == data@.len(),
            pos + len <= data@.len(),
            acc == le_val(data@.subrange(pos + i, pos + len)),
        decreases i,
    {
        proof {
            lemma_le_val_bound(data@.subrange(pos + i, pos + len));
            lemma_pow256_mono((len - i + 1) as nat, 8);
            lemma_pow256_u64_range();
            assert(data@.subrange(pos + i - 1, pos + len).drop_first() =~= data@.subrange(
                pos + i,
                pos + len,
            ));
            assert(data@.subrange(pos + i - 1, pos + len).first() == data@[pos + i - 1]);
            assert(le_val(data@.subrange(pos + i - 1, pos + len)) == data@[pos + i - 1] + 256
                * le_val(data@.subrange(pos + i, pos + len)));
        }
        acc = acc * 256 + data[pos + i - 1] as u64;
        i = i - 1;
        proof {
            assert(acc == le_val(data@.subrange(pos + i, pos + len))) by {
                lemma_le_val_bound(data@.subrange(pos + i + 1, pos + len));
            }
        }
    }
    acc
}

/// Reads `len` bytes starting at `pos` in the given byte order.
pub fn read_word(data: &[u8], pos: usize, len: usize, big: bool) -> (r: u64)
    requires
        pos + len <= data@.len(),
        len <= 8,
    ensures
        r == word_val(data@.subrange(pos as int, pos + len), big),
{
    if big {
        read_word_be(data, pos, len)
    } else {
        read_word_le(data, pos, len)
    }
}

proof fn lemma_word_bytes_le_snoc(v: u64, i: nat)
    ensures
        word_bytes_le(v, i + 1) == word_bytes_le(v, i).push(
            ((v as nat / pow256(i)) % 256) as u8,
        ),
{
    assert(word_bytes_le(v, i + 1) =~= word_bytes_le(v, i).push(
        ((v as nat / pow256(i)) % 256) as u8,
    ));
}

/// Appends the `len` little-endian bytes of `v` to `out`.
pub fn write_word_le(out: &mut Vec<u8>, v: u64, len: usize)
    requires
        len <= 8,
    ensures
        final(out)@ == old(out)@ + word_bytes_le(v, len as nat),
{
    let mut tmp: u64 = v;
    let mut i: usize = 0;
    proof {
        assert(old(out)@ + word_bytes_le(v, 0) =~= old(out)@);
        lemma_pow256_pos(0);
    }
    while i < len
        invariant
            i <= len,
            len <= 8,
            out@ == old(out)@ + word_bytes_le(v, i as nat),
            tmp == v as nat / pow256(i as nat),
        decreases len - i,
    {
        proof {
            lemma_pow256_pos(i as nat);
            lemma_word_bytes_le_snoc(v, i as nat);
            assert(old(out)@ + word_bytes_le(v, (i + 1) as nat) =~= (old(out)@ + word_bytes_le(
                v,
                i as nat,
            )).push(((v as nat / pow256(i as nat)) % 256) as u8));
            lemma_div_denominator(v as int, pow256(i as nat) as int, 256);
        }
        let b: u8 = (tmp % 256) as u8;
        out.push(b);
        tmp = tmp / 256;
        i = i + 1;
    }
}

/// Appends the `len` big-endian bytes of `v` to `out`.
pub fn write_word_be(out: &mut Vec<u8>, v: u64, len: usize)
    requires
        len <= 8,
    ensures
        final(out)@ == old(out)@ + word_bytes_be(v, len as nat),
{
    let mut tmp: Vec<u8> = Vec::new();
    write_word_le(&mut tmp, v, len);
    let mut i: usize = len;
    proof {
        assert(old(out)@ + word_bytes_be(v, len as nat).take(0) =~= old(out)@);
    }
    while i > 0
        invariant
            i <= len,
            len <= 8,
            tmp@ == word_bytes_le(v, len as nat),
            out@ == old(out)@ + word_bytes_be(v, len as nat).take(len - i),
        decreases i,
    {
        let b = tmp[i - 1];
        proof {
            assert(word_bytes_be(v, len as nat)[len - i] == word_bytes_le(v, len as nat)[i - 1]);
            assert(old(out)@ + word_bytes_be(v, len as nat).take(len - i + 1) =~= (old(out)@
                + word_bytes_be(v, len as nat).take(len - i)).push(b));
        }
        out.push(b);
        i = i - 1;
    }
    proof {
        assert(word_bytes_be(v, len as nat).take(len as int) =~= word_bytes_be(v, len as nat));
    }
}

/// Appends the `len` bytes of `v` to `out` in the given byte order.
pub fn write_word(out: &mut Vec<u8>, v: u64, len: usize, big: bool)
    requires
        len <= 8,
    ensures
        final(out)@ == old(out)@ + word_bytes(v, len as nat, big),
{
    if big {
        write_word_be(out, v, len)
    } else {
        write_word_le(out, v, len)
    }
}

pub proof fn lemma_pow256_pow2(n: nat)
    ensures
        pow256(n) == vstd::arithmetic::power2::pow2(8 * n),
    decreases n,
{
    if n == 0 {
        vstd::arithmetic::power2::lemma2_to64();
    } else {
        lemma_pow256_pow2((n - 1) as nat);
        vstd::arithmetic::power2::lemma_pow2_adds(8, 8 * (n - 1) as nat);
        vstd::arithmetic::power2::lemma2_to64();
    }
}

} // verus!
