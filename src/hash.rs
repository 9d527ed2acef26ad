use vstd::prelude::*;
use vstd::arithmetic::div_mod::{
    lemma_add_mod_noop, lemma_mod_add_multiples_vanish, lemma_mod_twice, lemma_small_mod,
};
use vstd::string::*;

use crate::error::Error;

verus! {

/// Bytes in each of the two windows that the checksum reads.
pub const BLOCK: usize = 65536;

/// Little-endian 64-bit words in one window.
pub const WORDS: usize = 8192;

/// Two to the power of 64: the checksum is taken modulo this.
pub open spec fn modulus() -> int {
    0x1_0000_0000_0000_0000
}

/// The little-endian unsigned value of the eight bytes of `b` that start at `off`.
pub open spec fn le_u64(b: Seq<u8>, off: int) -> nat {
    b[off] as nat + 256 * (b[off + 1] as nat + 256 * (b[off + 2] as nat + 256 * (b[off + 3] as nat
        + 256 * (b[off + 4] as nat + 256 * (b[off + 5] as nat + 256 * (b[off + 6] as nat + 256
        * (b[off + 7] as nat)))))))
}

/// The sum of the first `n` little-endian words of `b`.
pub open spec fn word_sum(b: Seq<u8>, n: nat) -> nat
    decreases n,
{
    if n == 0 {
        0
    } else {
        word_sum(b, (n - 1) as nat) + le_u64(b, 8 * (n - 1))
    }
}

/// The checksum of a file of `size` bytes whose first and last windows are
/// `head` and `tail`: the size plus every word of both windows, modulo 2^64.
pub open spec fn checksum(size: nat, head: Seq<u8>, tail: Seq<u8>) -> nat {
    ((size + word_sum(head, WORDS as nat) + word_sum(tail, WORDS as nat)) as int % modulus()) as nat
}

/// The lowercase hexadecimal digit of `d`, for `d` below 16.
pub open spec fn hex_char(d: int) -> char {
    seq!['0', '1', '2', '3', '4', '5', '6', '7', '8', '9', 'a', 'b', 'c', 'd', 'e', 'f'][d]
}

/// Sixteen to the power of `n`.
pub open spec fn pow16(n: nat) -> nat
    decreases n,
{
    if n == 0 {
        1
    } else {
        16 * pow16((n - 1) as nat)
    }
}

/// `v` written as exactly sixteen lowercase hexadecimal digits, most significant first.
pub open spec fn hex16(v: nat) -> Seq<char> {
    Seq::new(16, |k: int| hex_char(((v / pow16((15 - k) as nat)) % 16) as int))
}

/// The fingerprint of a whole file's content: the hash text and the size.
pub open spec fn fingerprint_of(content: Seq<u8>) -> (Seq<char>, u64) {
    let n = content.len();
    (
        hex16(checksum(n, content.take(BLOCK as int), content.skip(n - BLOCK))),
        n as u64,
    )
}

/// The fingerprint is a function of the file's bytes alone: two files with
/// the same content, of at least two windows, get the same fingerprint, whose
/// hash has sixteen digits and whose size is the length.
pub proof fn lemma_fingerprint_deterministic(a: Seq<u8>, b: Seq<u8>)
    requires
        a == b,
        2 * BLOCK <= a.len() <= u64::MAX,
    ensures
        fingerprint_of(a) == fingerprint_of(b),
        fingerprint_of(a).0.len() == 16,
        fingerprint_of(a).1 == a.len(),
{
}

/// A video's fingerprint as the catalog knows it.
#[derive(Debug)]
pub struct Hash {
    /// Sixteen lowercase hexadecimal digits.
    pub hash: String,
    /// The file's length in bytes.
    pub size: u64,
}

/// Every power of sixteen is positive.
proof fn lemma_pow16_pos(n: nat)
    ensures
        pow16(n) >= 1,
    decreases n,
{
    if n > 0 {
        lemma_pow16_pos((n - 1) as nat);
    }
}

/// Reducing a sum below twice the modulus takes at most one subtraction.
proof fn lemma_mod_once(z: int)
    requires
        0 <= z < 2 * modulus(),
    ensures
        z % modulus() == if z < modulus() { z } else { z - modulus() },
{
    if z < modulus() {
        lemma_small_mod(z as nat, modulus() as nat);
    } else {
        lemma_mod_add_multiples_vanish(z - modulus(), modulus());
        lemma_small_mod((z - modulus()) as nat, modulus() as nat);
    }
}

/// Reducing the left operand first does not change a sum modulo 2^64.
proof fn lemma_mod_add_left(x: int, y: int)
    ensures
        ((x % modulus()) + y) % modulus() == (x + y) % modulus(),
{
    let m = modulus();
    lemma_add_mod_noop(x, y, m);
    lemma_add_mod_noop(x % m, y, m);
    lemma_mod_twice(x, m);
}

/// Reads the little-endian word of `b` that starts at `off`.
fn read_le_u64(b: &[u8], off: usize) -> (r: u64)
    requires
        off + 8 <= b@.len() <= usize::MAX,
    ensures
        r as nat == le_u64(b@, off as int),
{
    let w7 = b[off + 7] as u64;
    let w6 = b[off + 6] as u64 + 256 * w7;
    let w5 = b[off + 5] as u64 + 256 * w6;
    let w4 = b[off + 4] as u64 + 256 * w5;
    let w3 = b[off + 3] as u64 + 256 * w4;
    let w2 = b[off + 2] as u64 + 256 * w3;
    let w1 = b[off + 1] as u64 + 256 * w2;
    b[off] as u64 + 256 * w1
}

/// Adds every word of the window `b` to `acc`, modulo 2^64.
fn add_words(acc: u64, b: &[u8]) -> (r: u64)
    requires
        b@.len() == BLOCK,
    ensures
        r as int == (acc + word_sum(b@, WORDS as nat)) % modulus(),
{
    let mut sum: u64 = acc;
    let mut i: usize = 0;
    proof {
        lemma_small_mod(acc as nat, modulus() as nat);
    }
    while i < WORDS
        invariant
            i <= WORDS,
            b@.len() == BLOCK,
            sum as int == (acc + word_sum(b@, i as nat)) % modulus(),
        decreases WORDS - i,
    {
        let w = read_le_u64(b, 8 * i);
        proof {
            lemma_mod_once(sum + w);
            lemma_mod_add_left(acc + word_sum(b@, i as nat), w as int);
        }
        sum = sum.wrapping_add(w);
        i += 1;
    }
    sum
}

/// The digit text of `d`, for `d` below 16.
fn hex_digit(d: u64) -> (r: &'static str)
    requires
        d < 16,
    ensures
        r@ == seq![hex_char(d as int)],
{
    let digits = "0123456789abcdef";
    proof {
        reveal_strlit("0123456789abcdef");
        assert(digits@ =~= seq![
            '0', '1', '2', '3', '4', '5', '6', '7', '8', '9', 'a', 'b', 'c', 'd', 'e', 'f'
        ]);
    }
    let r = digits.substring_ascii(d as usize, d as usize + 1);
    assert(r@ =~= seq![hex_char(d as int)]);
    r
}

/// Writes `v` as sixteen lowercase hexadecimal digits.
pub fn to_hex16(v: u64) -> (r: String)
    ensures
        r@ == hex16(v as nat),
{
    let mut s = String::new();
    let mut k: usize = 0;
    let mut d: u64 = 0x1000_0000_0000_0000;
    proof {
        reveal_with_fuel(pow16, 16);
    }
    while k < 16
        invariant
            k <= 16,
            k < 16 ==> d as nat == pow16((15 - k) as nat),
            d >= 1,
            s@ =~= hex16(v as nat).take(k as int),
        decreases 16 - k,
    {
        let digit = (v / d) % 16;
        s.append(hex_digit(digit));
        proof {
            assert(s@ =~= hex16(v as nat).take(k + 1));
        }
        if k < 15 {
            assert(pow16((15 - k) as nat) == 16 * pow16((14 - k) as nat));
            proof {
                lemma_pow16_pos((14 - k) as nat);
            }
            d = d / 16;
        }
        k += 1;
    }
    assert(s@ =~= hex16(v as nat));
    s
}

/// Computes a video's fingerprint from its size and its two windows: the first
/// `BLOCK` bytes of the file and the last `BLOCK` bytes (which overlap the first
/// in a file shorter than two windows).
///
/// Fails with `ShortFile` where the file is shorter than one window or a window
/// does not hold exactly `BLOCK` bytes.
pub fn os_hash(size: u64, head: &[u8], tail: &[u8]) -> (r: Result<Hash, Error>)
    ensures
        match r {
            Ok(h) => {
                &&& size >= BLOCK
                &&& head@.len() == BLOCK
                &&& tail@.len() == BLOCK
                &&& h.hash@ == hex16(checksum(size as nat, head@, tail@))
                &&& h.size == size
            },
            Err(e) => {
                &&& e is ShortFile
                &&& (size < BLOCK || head@.len() != BLOCK || tail@.len() != BLOCK)
            },
        },
{
    if size < BLOCK as u64 || head.len() != BLOCK || tail.len() != BLOCK {
        return Err(Error::ShortFile);
    }
    let with_head = add_words(size, head);
    let total = add_words(with_head, tail);
    proof {
        lemma_mod_add_left(size + word_sum(head@, WORDS as nat), word_sum(tail@, WORDS as nat) as int);
    }
    Ok(Hash { hash: to_hex16(total), size })
}

} // verus!
