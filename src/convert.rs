//! Fixed-width conversions between integers, bytes, text and bit sequences.
//! Bit sequences are big-endian: the most significant bit comes first.

use vstd::prelude::*;
use vstd::arithmetic::power2::{pow2, lemma_pow2_unfold, lemma_pow2_pos, lemma2_to64};
use vstd::arithmetic::div_mod::{lemma_div_denominator, lemma_fundamental_div_mod, lemma_fundamental_div_mod_converse};
use vstd::slice::slice_subrange;

verus! {

/// Unsigned value of a big-endian bit sequence.
pub open spec fn bits_value(s: Seq<bool>) -> nat
    decreases s.len(),
{
    if s.len() == 0 {
        0
    } else {
        2 * bits_value(s.drop_last()) + (if s.last() { 1nat } else { 0nat })
    }
}

/// The `width` lowest bits of `v`, most significant first.
pub open spec fn bits_of(v: nat, width: nat) -> Seq<bool> {
    Seq::new(width, |i: int| (v / pow2((width - 1 - i) as nat)) % 2 == 1)
}

/// Groups a bit sequence into 8-bit chunks and reads each as a byte.
pub open spec fn bits_to_bytes(s: Seq<bool>) -> Seq<u8> {
    Seq::new(s.len() / 8, |i: int| bits_value(s.subrange(8 * i, 8 * i + 8)) as u8)
}

/// The bits of each byte in turn, eight per byte.
pub open spec fn bytes_to_bits(b: Seq<u8>) -> Seq<bool> {
    Seq::new(8 * b.len(), |i: int| bits_of(b[i / 8] as nat, 8)[i % 8])
}

/// The characters that a bit sequence spells, one per byte, with the
/// all-zero bytes left out.
pub open spec fn text_of_bits(s: Seq<bool>) -> Seq<char> {
    bits_to_bytes(s).filter(|b: u8| b != 0).map_values(|b: u8| b as char)
}

/// A bit sequence never reads as more than its width allows.
pub proof fn lemma_value_bound(s: Seq<bool>)
    ensures
        bits_value(s) < pow2(s.len()),
    decreases s.len(),
{
    if s.len() > 0 {
        lemma_value_bound(s.drop_last());
        lemma_pow2_unfold(s.len());
    } else {
        lemma_pow2_pos(0);
    }
}

/// A prefix of a bit sequence never reads as more than the whole.
pub proof fn lemma_prefix_value_le(s: Seq<bool>, i: int)
    requires
        0 <= i <= s.len(),
    ensures
        bits_value(s.take(i)) <= bits_value(s),
    decreases s.len() - i,
{
    if i < s.len() {
        lemma_prefix_value_le(s, i + 1);
        assert(s.take(i + 1).drop_last() =~= s.take(i));
    } else {
        assert(s.take(i) =~= s);
    }
}

/// Reading back the `n` bits of a value below `2^n` gives the value.
pub proof fn lemma_bits_round_trip(x: nat, n: nat)
    requires
        x < pow2(n),
    ensures
        bits_of(x, n).len() == n,
        bits_value(bits_of(x, n)) == x,
    decreases n,
{
    if n > 0 {
        let m = (n - 1) as nat;
        lemma_pow2_unfold(n);
        let s = bits_of(x, n);
        assert forall|i: int| 0 <= i < m implies s.drop_last()[i] == bits_of(x / 2, m)[i] by {
            let k = (m - 1 - i) as nat;
            lemma_pow2_unfold(k + 1);
            lemma_pow2_pos(k);
            lemma_div_denominator(x as int, 2, pow2(k) as int);
        }
        assert(s.drop_last() =~= bits_of(x / 2, m));
        lemma_bits_round_trip(x / 2, m);
        lemma2_to64();
        assert(s[m as int] == ((x / pow2(0)) % 2 == 1));
        assert(s.last() == (x % 2 == 1));
        assert(bits_value(s) == 2 * bits_value(s.drop_last()) + (if s.last() { 1nat } else { 0nat }));
    } else {
        lemma2_to64();
        assert(bits_of(x, n) =~= Seq::<bool>::empty());
    }
}

/// Reading back the eight bits of a byte gives the byte.
pub proof fn lemma_byte_round_trip(v: u8)
    ensures
        bits_value(bits_of(v as nat, 8)) == v,
{
    lemma2_to64();
    lemma_bits_round_trip(v as nat, 8);
}

/// Packing the bits of a byte sequence gives the bytes back.
pub proof fn lemma_bytes_round_trip(b: Seq<u8>)
    ensures
        bits_to_bytes(bytes_to_bits(b)) == b,
{
    let bits = bytes_to_bits(b);
    assert forall|i: int| 0 <= i < b.len() implies #[trigger] bits_to_bytes(bits)[i] == b[i] by {
        let chunk = bits.subrange(8 * i, 8 * i + 8);
        assert forall|j: int| 0 <= j < 8 implies chunk[j] == bits_of(b[i] as nat, 8)[j] by {
            lemma_fundamental_div_mod_converse(8 * i + j, 8, i, j);
        }
        assert(chunk =~= bits_of(b[i] as nat, 8));
        lemma_byte_round_trip(b[i]);
    }
    assert(bits_to_bytes(bits) =~= b);
}

/// Fixed-width bits of `dec`, most significant first, padded with zeros on
/// the left.
pub fn dec_to_bin(dec: u32, bits: usize) -> (r: Vec<bool>)
    requires
        dec < pow2(bits as nat),
    ensures
        r@ == bits_of(dec as nat, bits as nat),
{
    let mut low_first: Vec<bool> = Vec::new();
    let mut v: u32 = dec;
    let mut k: usize = 0;
    proof {
        lemma2_to64();
    }
    while k < bits
        invariant
            k <= bits,
            v as nat == dec as nat / pow2(k as nat),
            low_first@.len() == k,
            forall|j: int| 0 <= j < k ==> low_first@[j] == ((dec as nat / pow2(j as nat)) % 2 == 1),
        decreases bits - k,
    {
        low_first.push(v % 2 == 1);
        proof {
            lemma_pow2_pos(k as nat);
            lemma_pow2_unfold((k + 1) as nat);
            lemma_div_denominator(dec as int, pow2(k as nat) as int, 2);
        }
        v = v / 2;
        k = k + 1;
    }
    let mut out: Vec<bool> = Vec::new();
    let mut i: usize = 0;
    while i < bits
        invariant
            i <= bits,
            low_first@.len() == bits,
            out@.len() == i,
            forall|j: int| 0 <= j < i ==> out@[j] == low_first@[bits - 1 - j],
        decreases bits - i,
    {
        out.push(low_first[bits - 1 - i]);
        i = i + 1;
    }
    assert(out@ =~= bits_of(dec as nat, bits as nat));
    out
}

/// Value of a big-endian bit sequence.
pub fn bin_to_dec(bin: &[bool]) -> (r: u32)
    requires
        bin@.len() > 0,
        bits_value(bin@) <= u32::MAX,
    ensures
        r == bits_value(bin@),
{
    let mut acc: u32 = 0;
    let mut i: usize = 0;
    assert(bin@.take(0) =~= Seq::<bool>::empty());
    while i < bin.len()
        invariant
            i <= bin@.len(),
            bits_value(bin@) <= u32::MAX,
            acc == bits_value(bin@.take(i as int)),
        decreases bin@.len() - i,
    {
        proof {
            lemma_prefix_value_le(bin@, i + 1);
            assert(bin@.take(i + 1).drop_last() =~= bin@.take(i as int));
        }
        acc = 2 * acc + if bin[i] { 1 } else { 0 };
        i = i + 1;
    }
    assert(bin@.take(i as int) =~= bin@);
    acc
}

/// The eight bits of a byte, most significant first.
pub fn byte_to_bits(byte: &u8) -> (r: Vec<bool>)
    ensures
        r@ == bits_of(*byte as nat, 8),
{
    proof {
        lemma2_to64();
    }
    dec_to_bin(*byte as u32, 8)
}

/// The byte that eight bits spell, most significant first.
pub fn bits_to_byte(bits: &[bool]) -> (r: u8)
    requires
        bits@.len() == 8,
    ensures
        r == bits_value(bits@),
{
    proof {
        lemma_value_bound(bits@);
        lemma2_to64();
    }
    bin_to_dec(bits) as u8
}

/// Packs a bit sequence into bytes, eight bits to a byte.
pub fn pages_to_bytes(bits: &[bool]) -> (r: Vec<u8>)
    requires
        bits@.len() % 8 == 0,
    ensures
        r@ == bits_to_bytes(bits@),
{
    let mut out: Vec<u8> = Vec::new();
    let n = bits.len() / 8;
    let mut i: usize = 0;
    while i < n
        invariant
            n == bits@.len() / 8,
            i <= n,
            out@ =~= bits_to_bytes(bits@).take(i as int),
        decreases n - i,
    {
        proof {
            lemma_fundamental_div_mod(bits@.len() as int, 8);
            assert(8 * (i + 1) <= 8 * n);
            assert(8 * n <= bits@.len());
            assert(8 * (i + 1) <= bits.len());
        }
        let chunk = slice_subrange(bits, 8 * i, 8 * i + 8);
        let b = bits_to_byte(chunk);
        proof {
            lemma_value_bound(chunk@);
            lemma2_to64();
        }
        out.push(b);
        i = i + 1;
    }
    assert(out@ =~= bits_to_bytes(bits@));
    out
}

/// Relies on `String::push`: appends one character at the end.
#[verifier::external_body]
fn push_char(s: &mut String, c: char)
    ensures
        final(s)@ == old(s)@.push(c),
{
    s.push(c);
}

/// The text that a bit sequence spells, one character per byte, with the
/// all-zero bytes (padding) left out.
pub fn bin_to_str(bits: &[bool]) -> (r: String)
    requires
        bits@.len() % 8 == 0,
    ensures
        r@ == text_of_bits(bits@),
{
    let bytes = pages_to_bytes(bits);
    let mut out = String::new();
    let mut i: usize = 0;
    proof {
        reveal(Seq::filter);
        assert(bytes@.take(0) =~= Seq::<u8>::empty());
    }
    while i < bytes.len()
        invariant
            i <= bytes@.len(),
            out@ =~= bytes@.take(i as int).filter(|b: u8| b != 0).map_values(|b: u8| b as char),
        decreases bytes@.len() - i,
    {
        let b = bytes[i];
        proof {
            reveal(Seq::filter);
            assert(bytes@.take(i + 1).drop_last() =~= bytes@.take(i as int));
        }
        if b != 0 {
            push_char(&mut out, b as char);
        }
        i = i + 1;
    }
    assert(bytes@.take(i as int) =~= bytes@);
    out
}

} // verus!
