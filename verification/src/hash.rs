use core::ops::Range;
use vstd::arithmetic::div_mod::lemma_div_denominator;
use vstd::prelude::*;
use vstd::slice::slice_to_vec;
use vstd::utf8::encode_utf8;

verus! {

/// `10^e`.
pub open spec fn pow10(e: nat) -> nat
    decreases e,
{
    if e == 0 {
        1
    } else {
        10 * pow10((e - 1) as nat)
    }
}

/// The ASCII byte of the digit standing at position `j` (counted from the
/// left) when `n` is written with exactly `width` decimal digits.  Digits of
/// `n` above the lowest `width` are dropped, so a too-large id silently wraps.
pub open spec fn digit_byte(n: nat, width: nat, j: int) -> u8 {
    (48 + (n / pow10((width - 1 - j) as nat)) % 10) as u8
}

/// `n` written as exactly `width` ASCII decimal digits, zero-padded on the
/// left, keeping only the lowest `width` digits of `n`.
pub open spec fn dec_fixed(n: nat, width: nat) -> Seq<u8> {
    Seq::new(width, |j: int| digit_byte(n, width, j))
}

pub proof fn lemma_pow10_pos(e: nat)
    ensures
        pow10(e) >= 1,
    decreases e,
{
    if e > 0 {
        lemma_pow10_pos((e - 1) as nat);
    }
}

pub proof fn lemma_pow10_mono(a: nat, b: nat)
    requires
        a <= b,
    ensures
        pow10(a) <= pow10(b),
    decreases b,
{
    if a < b {
        lemma_pow10_mono(a, (b - 1) as nat);
        lemma_pow10_pos((b - 1) as nat);
    }
}

/// The SHA-256 digest of a byte string, named but never written out: the
/// trusted wrapper below ties it to the outside implementation.
pub uninterp spec fn sha256_of(data: Seq<u8>) -> Seq<u8>;

/// The exact byte string hashed for `id`: the id as ten ASCII decimal digits
/// (wrapping ids of more than ten digits), one `+` byte, then the pepper.
/// The ten-digit width is fixed, independent of the digit count that sizes
/// the enumerated keyspace.
pub open spec fn hash_input(pepper: Seq<u8>, id: u64) -> Seq<u8> {
    dec_fixed(id as nat, 10) + seq![43u8] + pepper
}

/// The digest the table stores for `id` under `pepper`.
pub open spec fn digest_of(pepper: Seq<u8>, id: u64) -> Seq<u8> {
    sha256_of(hash_input(pepper, id))
}

/// Relies on `ring::digest::digest` with `ring::digest::SHA256`: the SHA-256
/// digest of the input bytes, a function of those bytes alone, 32 bytes long
/// (`SHA256_OUTPUT_LEN`).  SHA-256 is undefined for inputs of 2^61 bytes or
/// more and the call would fail there, so those inputs are left out.
#[verifier::external_body]
fn sha256(data: &Vec<u8>) -> (r: Vec<u8>)
    requires
        data@.len() < 0x2000000000000000,
    ensures
        r@ == sha256_of(data@),
        r@.len() == 32,
{
    ring::digest::digest(&ring::digest::SHA256, data.as_slice()).as_ref().to_vec()
}

/// Overwrites the first `width` bytes of `buffer` with the fixed-width decimal
/// rendering of `n`; every byte from `width` on is left untouched.  No
/// allocation takes place, so the hashing hot path can reuse one buffer.
pub fn format_id(buffer: &mut Vec<u8>, n: u64, width: usize)
    requires
        width <= old(buffer)@.len(),
    ensures
        final(buffer)@.len() == old(buffer)@.len(),
        final(buffer)@.subrange(0, width as int) == dec_fixed(n as nat, width as nat),
        final(buffer)@.skip(width as int) == old(buffer)@.skip(width as int),
{
    let mut i: usize = 0;
    let mut m: u64 = n;
    assert(pow10(0) == 1);
    while i < width
        invariant
            i <= width <= buffer@.len(),
            buffer@.len() == old(buffer)@.len(),
            m as nat == n as nat / pow10(i as nat),
            forall|j: int|
                width - i <= j < width ==> buffer@[j] == digit_byte(n as nat, width as nat, j),
            forall|j: int|
                0 <= j < buffer@.len() && !(width - i <= j < width) ==> buffer@[j] == old(
                    buffer,
                )@[j],
        decreases width - i,
    {
        let digit: u8 = (m % 10) as u8;
        buffer.set(width - i - 1, 48 + digit);
        proof {
            lemma_pow10_pos(i as nat);
            assert(pow10((i + 1) as nat) == pow10(i as nat) * 10);
            lemma_div_denominator(n as int, pow10(i as nat) as int, 10);
        }
        m = m / 10;
        i = i + 1;
    }
    assert(buffer@.subrange(0, width as int) =~= dec_fixed(n as nat, width as nat));
    assert(buffer@.skip(width as int) =~= old(buffer)@.skip(width as int));
}

/// A restartable, finite, forward-only sequence of `(id, digest)` pairs over
/// a half-open id range, in ascending id order.  The id digits are written
/// into one reusable buffer before each hash, so a step allocates nothing
/// beyond the digest it returns.
pub struct Hasher {
    cur: u64,
    end: u64,
    buffer: Vec<u8>,
}

impl Hasher {
    /// The buffer always holds ten digit bytes, the `+` separator, and then
    /// the pepper bytes, and stays small enough to hash.
    pub closed spec fn wf(self) -> bool {
        &&& self.cur <= self.end
        &&& 11 <= self.buffer@.len() < 0x2000000000000000
        &&& self.buffer@[10] == 43u8
    }

    /// The pepper bytes this hasher mixes into every digest.
    pub closed spec fn pepper(self) -> Seq<u8> {
        self.buffer@.skip(11)
    }

    /// The next id to be hashed.
    pub closed spec fn pos(self) -> u64 {
        self.cur
    }

    /// The first id past the range.
    pub closed spec fn end_id(self) -> u64 {
        self.end
    }

    /// A hasher for `chunk` that mixes the UTF-8 bytes of `pepper` into every
    /// digest.  An inverted range is treated as empty, as iterating it would
    /// be.
    pub fn new(pepper: &String, chunk: Range<u64>) -> (h: Hasher)
        requires
            encode_utf8(pepper@).len() + 11 < 0x2000000000000000,
        ensures
            h.wf(),
            h.pepper() == encode_utf8(pepper@),
            h.pos() == chunk.start,
            h.pos() <= h.end_id(),
            h.end_id() == if chunk.start <= chunk.end {
                chunk.end
            } else {
                chunk.start
            },
    {
        let mut buffer: Vec<u8> = Vec::new();
        let mut i: usize = 0;
        while i < 10
            invariant
                i <= 10,
                buffer@.len() == i,
            decreases 10 - i,
        {
            buffer.push(48);
            i = i + 1;
        }
        buffer.push(43);
        let mut pb: Vec<u8> = slice_to_vec(pepper.as_str().as_bytes());
        buffer.append(&mut pb);
        let end = if chunk.end < chunk.start {
            chunk.start
        } else {
            chunk.end
        };
        let h = Hasher { cur: chunk.start, end, buffer };
        proof {
            assert(h.pepper() =~= encode_utf8(pepper@));
        }
        h
    }

    /// How many ids are still to be hashed.
    pub fn remaining(&self) -> (n: u64)
        requires
            self.wf(),
        ensures
            n == self.end_id() - self.pos(),
    {
        self.end - self.cur
    }

    /// One step of the sequence: while ids remain, returns the current id
    /// with its digest and advances by one; at the end of the range, returns
    /// nothing and stays put.
    pub fn next(&mut self) -> (r: Option<(u64, Vec<u8>)>)
        requires
            old(self).wf(),
        ensures
            final(self).wf(),
            final(self).pepper() == old(self).pepper(),
            final(self).end_id() == old(self).end_id(),
            final(self).pos() <= final(self).end_id(),
            old(self).pos() < old(self).end_id() ==> {
                &&& final(self).pos() == old(self).pos() + 1
                &&& r matches Some(p) && p.0 == old(self).pos() && p.1@ == digest_of(
                    old(self).pepper(),
                    old(self).pos(),
                ) && p.1@.len() == 32
            },
            old(self).pos() >= old(self).end_id() ==> r is None && final(self).pos() == old(
                self,
            ).pos(),
    {
        if self.cur < self.end {
            let id = self.cur;
            format_id(&mut self.buffer, id, 10);
            proof {
                let ob = old(self).buffer@;
                let nb = self.buffer@;
                assert forall|j: int| 10 <= j < nb.len() implies nb[j] == ob[j] by {
                    assert(nb.skip(10)[j - 10] == ob.skip(10)[j - 10]);
                }
                assert forall|j: int| 0 <= j < 10 implies nb[j] == dec_fixed(id as nat, 10)[j] by {
                    assert(nb.subrange(0, 10)[j] == dec_fixed(id as nat, 10)[j]);
                }
                assert(self.pepper() =~= old(self).pepper());
                assert(self.buffer@ =~= hash_input(self.pepper(), id));
            }
            let digest = sha256(&self.buffer);
            self.cur = self.cur + 1;
            Some((id, digest))
        } else {
            None
        }
    }
}

/// Determinism law: one id hashed twice with one pepper yields one digest.
/// Two byte strings that each equal the digest for `(pepper, id)` are equal
/// to each other.
pub proof fn lemma_digest_deterministic(pepper: Seq<u8>, id: u64, d1: Seq<u8>, d2: Seq<u8>)
    requires
        d1 == digest_of(pepper, id),
        d2 == digest_of(pepper, id),
    ensures
        d1 == d2,
{
}

/// The serial reference: drains a fresh hasher over `chunk`, returning
/// exactly `end - start` records, ids strictly ascending from `start`, each
/// digest the one the hashing sequence defines for its id.
pub fn hash_range(pepper: &String, chunk: Range<u64>) -> (records: Vec<(u64, Vec<u8>)>)
    requires
        encode_utf8(pepper@).len() + 11 < 0x2000000000000000,
        chunk.start <= chunk.end,
        chunk.end - chunk.start <= usize::MAX,
    ensures
        records@.len() == chunk.end - chunk.start,
        forall|i: int| 0 <= i < records@.len() ==> (#[trigger] records@[i]).0 == chunk.start + i,
        forall|i: int|
            0 <= i < records@.len() ==> (#[trigger] records@[i]).1@ == digest_of(
                encode_utf8(pepper@),
                (chunk.start + i) as u64,
            ) && records@[i].1@.len() == 32,
{
    let ghost start = chunk.start;
    let n: usize = (chunk.end - chunk.start) as usize;
    let mut h = Hasher::new(pepper, chunk);
    let mut records: Vec<(u64, Vec<u8>)> = Vec::new();
    let mut i: usize = 0;
    while i < n
        invariant
            i <= n,
            h.wf(),
            h.pepper() == encode_utf8(pepper@),
            h.pos() == start + i,
            h.end_id() == start + n,
            records@.len() == i,
            forall|k: int| 0 <= k < i ==> (#[trigger] records@[k]).0 == start + k,
            forall|k: int|
                0 <= k < i ==> (#[trigger] records@[k]).1@ == digest_of(
                    encode_utf8(pepper@),
                    (start + k) as u64,
                ) && records@[k].1@.len() == 32,
        decreases n - i,
    {
        match h.next() {
            Some(rec) => {
                records.push(rec);
            },
            None => {
                proof {
                    assert(false);
                }
            },
        }
        i = i + 1;
    }
    records
}

} // verus!
