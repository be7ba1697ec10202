//! A pseudo-random byte stream: AES-256 in counter mode.

use aes::cipher::{BlockCipherEncrypt, KeyInit};
use aes::Aes256;
use vstd::prelude::*;

use crate::bytes;

verus! {

/// The AES-256 encryption of one block.
pub uninterp spec fn aes256_block(key: Seq<u8>, block: Seq<u8>) -> [u8; 16];

/// `Aes256::encrypt_blocks` under the key given to `Aes256::new`: every block
/// is encrypted by itself.
#[verifier::external_body]
fn aes256_encrypt_blocks(key: &[u8; 32], blocks: [[u8; 16]; 8]) -> (r: [[u8; 16]; 8])
    ensures
        forall|i: int| 0 <= i < 8 ==> #[trigger] r@[i] == aes256_block(key@, blocks@[i]@),
{
    let cipher = Aes256::new(&(*key).into());
    let mut out: [aes::Block; 8] = blocks.map(|b| b.into());
    cipher.encrypt_blocks(&mut out);
    out.map(|b| b.into())
}

/// The stream has no more bytes: its counter is at the end.
#[derive(Clone, Copy, Debug, PartialEq, Eq, Structural)]
pub struct Exhausted;

/// Bytes that one refill yields.
pub const AES_BUF_SIZE: usize = 128;

/// The length of a stream in bytes: the 64-bit counter advances by eight
/// blocks at a time and never passes its largest value.
pub open spec fn stream_len() -> nat {
    0xFFFFFFFFFFFFFFF80
}

/// Block `b` of a stream: the encryption of the stream's number and the
/// counter.
pub open spec fn stream_block(key: Seq<u8>, stream: u64, b: nat) -> [u8; 16] {
    aes256_block(key, bytes::le_bytes(b + 0x10000000000000000 * stream as nat, 16))
}

/// Byte `p` of a stream.
pub open spec fn stream_byte(key: Seq<u8>, stream: u64, p: nat) -> u8 {
    stream_block(key, stream, p / 16)@[p as int % 16]
}

/// Bytes `p` to `p + n` of a stream.
pub open spec fn stream_bytes(key: Seq<u8>, stream: u64, p: nat, n: nat) -> Seq<u8> {
    Seq::new(n, |k: int| stream_byte(key, stream, (p + k) as nat))
}

/// Where a word of `n` bytes is read: at `p`, or at the next refill where
/// fewer than `n` bytes are left before it.
pub open spec fn aligned(p: nat, n: nat) -> nat {
    if p % 128 + n > 128 {
        (p / 128 + 1) * 128
    } else {
        p
    }
}

/// A generator: a key, a stream of it, and a position in the stream.
pub struct AesCtrPrg {
    key: [u8; 32],
    nonce: u64,
    counter: u64,
    buffer: [u8; 128],
    buf_pos: usize,
}

impl AesCtrPrg {
    pub closed spec fn key(self) -> Seq<u8> {
        self.key@
    }

    /// The number of the stream.
    pub closed spec fn stream(self) -> u64 {
        self.nonce
    }

    /// The position in the stream.
    pub closed spec fn position(self) -> nat {
        (16 * self.counter + self.buf_pos - 128) as nat
    }

    /// The buffer holds the bytes before the counter's block.
    pub closed spec fn wf(self) -> bool {
        &&& self.buf_pos <= 128
        &&& self.counter % 8 == 0
        &&& self.counter <= 0x10000000000000000 - 8
        &&& self.counter == 0 ==> self.buf_pos == 128
        &&& self.counter > 0 ==> self.buffer@ == stream_bytes(
            self.key@,
            self.nonce,
            (16 * self.counter - 128) as nat,
            128,
        )
    }

    /// A generator at the start of stream zero.
    pub fn from_seed(seed: [u8; 32]) -> (r: Self)
        ensures
            r.wf(),
            r.key() == seed@,
            r.stream() == 0,
            r.position() == 0,
    {
        AesCtrPrg { key: seed, nonce: 0, counter: 0, buffer: [0u8; 128], buf_pos: AES_BUF_SIZE }
    }

    /// Moves to the start of a stream.
    pub fn set_stream(&mut self, stream_id: u64)
        requires
            old(self).wf(),
        ensures
            final(self).wf(),
            final(self).key() == old(self).key(),
            final(self).stream() == stream_id,
            final(self).position() == 0,
    {
        self.nonce = stream_id;
        self.counter = 0;
        self.buf_pos = AES_BUF_SIZE;
    }

    /// Encrypts the next eight blocks into the buffer, and starts over in it.
    fn refill(&mut self) -> (r: Result<(), Exhausted>)
        requires
            old(self).wf(),
        ensures
            final(self).wf(),
            final(self).key() == old(self).key(),
            final(self).stream() == old(self).stream(),
            match r {
                Ok(_) => {
                    &&& final(self).buf_pos == 0
                    &&& final(self).counter == old(self).counter + 8
                },
                Err(_) => *final(self) == *old(self) && 16 * old(self).counter
                    == stream_len(),
            },
            r is Ok <==> 16 * old(self).counter < stream_len(),
    {
        if self.counter > 0xFFFFFFFFFFFFFFF0 {
            return Err(Exhausted);
        }
        let high: u128 = (self.nonce as u128) * 0x10000000000000000;
        let mut blocks: [[u8; 16]; 8] = [[0u8; 16];8];
        let mut i: usize = 0;
        while i < 8
            invariant
                i <= 8,
                self.counter <= 0xFFFFFFFFFFFFFFF0,
                high == self.nonce * 0x10000000000000000,
                forall|k: int|
                    0 <= k < i ==> (#[trigger] blocks@[k])@ == bytes::le_bytes(
                        (self.counter + k) as nat + 0x10000000000000000 * self.nonce as nat,
                        16,
                    ),
            decreases 8 - i,
        {
            blocks[i] = le_bytes16((self.counter + i as u64) as u128 + high);
            i = i + 1;
        }
        let out: [[u8; 16]; 8] = aes256_encrypt_blocks(&self.key, blocks);
        let ghost base = (16 * self.counter) as nat;
        let mut k: usize = 0;
        while k < 128
            invariant
                k <= 128,
                base == 16 * self.counter,
                self.key == old(self).key,
                self.nonce == old(self).nonce,
                self.counter == old(self).counter,
                forall|i: int|
                    0 <= i < 8 ==> (#[trigger] blocks@[i])@ == bytes::le_bytes(
                        (self.counter + i) as nat + 0x10000000000000000 * self.nonce as nat,
                        16,
                    ),
                forall|i: int|
                    0 <= i < 8 ==> #[trigger] out@[i] == aes256_block(self.key@, blocks@[i]@),
                forall|i: int|
                    0 <= i < k ==> #[trigger] self.buffer@[i] == stream_byte(
                        self.key@,
                        self.nonce,
                        (base + i) as nat,
                    ),
            decreases 128 - k,
        {
            let row: [u8; 16] = out[k / 16];
            self.buffer[k] = row[k % 16];
            proof {
                let b = k as int / 16;
                assert(out@[b] == aes256_block(self.key@, blocks@[b]@));
                assert((base + k) as nat / 16 == self.counter + b);
                assert((base + k) as int % 16 == k as int % 16);
                assert(self.buffer@[k as int] == stream_byte(
                    self.key@,
                    self.nonce,
                    (base + k) as nat,
                ));
            }
            k = k + 1;
        }
        self.counter = self.counter + 8;
        self.buf_pos = 0;
        proof {
            assert(self.buffer@ =~= stream_bytes(self.key@, self.nonce, base, 128));
        }
        Ok(())
    }

    /// Reads `n` bytes as a number, from the buffer or after a refill.
    fn word(&mut self, n: usize) -> (r: Result<u64, Exhausted>)
        requires
            old(self).wf(),
            0 < n <= 8,
        ensures
            final(self).wf(),
            final(self).key() == old(self).key(),
            final(self).stream() == old(self).stream(),
            ({
                let a = aligned(old(self).position(), n as nat);
                match r {
                    Ok(w) => {
                        &&& a + n <= stream_len()
                        &&& final(self).position() == a + n
                        &&& w == bytes::le_value(
                            stream_bytes(old(self).key(), old(self).stream(), a, n as nat),
                        )
                    },
                    Err(_) => a + n > stream_len() && *final(self) == *old(self),
                }
            }),
    {
        let ghost p = self.position();
        let ghost a = aligned(p, n as nat);
        proof {
            lemma_aligned(self.counter, self.buf_pos, n as nat);
        }
        if self.buf_pos + n > AES_BUF_SIZE {
            match self.refill() {
                Err(e) => {
                    return Err(e);
                },
                Ok(()) => {},
            }
        }
        let at: usize = self.buf_pos;
        let read: &[u8] = vstd::slice::slice_subrange(self.buffer.as_slice(), at, at + n);
        proof {
            assert(a == 16 * self.counter - 128 + at);
            assert(read@ =~= stream_bytes(self.key@, self.nonce, a, n as nat)) by {
                assert forall|k: int| 0 <= k < n implies #[trigger] read@[k] == stream_byte(
                    self.key@,
                    self.nonce,
                    (a + k) as nat,
                ) by {
                    assert(read@[k] == self.buffer@[at + k]);
                }
            }
            bytes::lemma_le_value_bound(read@);
            bytes::lemma_byte_pow_le(n as nat, 8);
            bytes::lemma_byte_pow_values();
        }
        let val: u64 = bytes::read_le(read) as u64;
        self.buf_pos = at + n;
        Ok(val)
    }

    /// The next word of four bytes.
    pub fn try_next_u32(&mut self) -> (r: Result<u32, Exhausted>)
        requires
            old(self).wf(),
        ensures
            final(self).wf(),
            final(self).key() == old(self).key(),
            final(self).stream() == old(self).stream(),
            ({
                let a = aligned(old(self).position(), 4);
                match r {
                    Ok(w) => {
                        &&& a + 4 <= stream_len()
                        &&& final(self).position() == a + 4
                        &&& w == bytes::le_value(
                            stream_bytes(old(self).key(), old(self).stream(), a, 4),
                        )
                    },
                    Err(_) => a + 4 > stream_len() && *final(self) == *old(self),
                }
            }),
    {
        proof {
            let a = aligned(self.position(), 4);
            bytes::lemma_le_value_bound(stream_bytes(self.key(), self.stream(), a, 4));
            bytes::lemma_byte_pow_values();
        }
        match self.word(4) {
            Ok(w) => Ok(w as u32),
            Err(e) => Err(e),
        }
    }

    /// The next word of eight bytes.
    pub fn try_next_u64(&mut self) -> (r: Result<u64, Exhausted>)
        requires
            old(self).wf(),
        ensures
            final(self).wf(),
            final(self).key() == old(self).key(),
            final(self).stream() == old(self).stream(),
            ({
                let a = aligned(old(self).position(), 8);
                match r {
                    Ok(w) => {
                        &&& a + 8 <= stream_len()
                        &&& final(self).position() == a + 8
                        &&& w == bytes::le_value(
                            stream_bytes(old(self).key(), old(self).stream(), a, 8),
                        )
                    },
                    Err(_) => a + 8 > stream_len() && *final(self) == *old(self),
                }
            }),
    {
        self.word(8)
    }

    /// Fills a slice with the next bytes.
    pub fn try_fill_bytes(&mut self, dst: &mut [u8]) -> (r: Result<(), Exhausted>)
        requires
            old(self).wf(),
        ensures
            final(self).wf(),
            final(self).key() == old(self).key(),
            final(self).stream() == old(self).stream(),
            final(dst)@.len() == old(dst)@.len(),
            r is Ok <==> old(self).position() + old(dst)@.len() <= stream_len(),
            r is Ok ==> final(self).position() == old(self).position() + old(dst)@.len()
                && final(dst)@ == stream_bytes(
                old(self).key(),
                old(self).stream(),
                old(self).position(),
                old(dst)@.len(),
            ),
    {
        let ghost p = self.position();
        let mut written: usize = 0;
        while written < dst.len()
            invariant
                self.wf(),
                self.key == old(self).key,
                self.nonce == old(self).nonce,
                p == old(self).position(),
                dst@.len() == old(dst)@.len(),
                written <= dst@.len(),
                self.position() == p + written,
                self.position() <= stream_len(),
                forall|k: int|
                    0 <= k < written ==> #[trigger] dst@[k] == stream_byte(
                        self.key@,
                        self.nonce,
                        (p + k) as nat,
                    ),
            decreases dst@.len() - written,
        {
            if self.buf_pos >= AES_BUF_SIZE {
                match self.refill() {
                    Err(e) => {
                        return Err(e);
                    },
                    Ok(()) => {},
                }
            }
            proof {
                let at = self.buf_pos as int;
                assert(self.buffer@[at] == stream_byte(
                    self.key@,
                    self.nonce,
                    (16 * self.counter - 128 + at) as nat,
                ));
            }
            dst[written] = self.buffer[self.buf_pos];
            self.buf_pos = self.buf_pos + 1;
            written = written + 1;
        }
        proof {
            assert(dst@ =~= stream_bytes(self.key@, self.nonce, p, dst@.len()));
        }
        Ok(())
    }
}

/// The block of sixteen bytes whose encryption is block `b` of a stream.
pub open spec fn counter_block(stream: u64, b: nat) -> Seq<u8> {
    bytes::le_bytes(b, 8) + bytes::le_bytes(stream as nat, 8)
}

/// The low eight bytes of a number and the eight above them.
proof fn lemma_two_words(lo: nat, hi: nat, n: nat)
    requires
        lo < bytes::byte_pow(n),
    ensures
        bytes::le_bytes(lo + bytes::byte_pow(n) * hi, n + 8) == bytes::le_bytes(lo, n)
            + bytes::le_bytes(hi, 8),
    decreases n,
{
    if n == 0 {
        assert(bytes::byte_pow(0) * hi == hi);
        assert(bytes::le_bytes(lo, 0) + bytes::le_bytes(hi, 8) =~= bytes::le_bytes(hi, 8));
    } else {
        let m = (n - 1) as nat;
        let p = bytes::byte_pow(m);
        let v = lo + bytes::byte_pow(n) * hi;
        assert(v == lo + 256 * (p * hi)) by (nonlinear_arith)
            requires
                v == lo + (256 * p) * hi,
        ;
        assert(v % 256 == lo % 256 && v / 256 == lo / 256 + p * hi);
        lemma_two_words(lo / 256, hi, m);
        assert(bytes::le_bytes(lo, n) + bytes::le_bytes(hi, 8) =~= seq![(lo % 256) as u8] + (
        bytes::le_bytes(lo / 256, m) + bytes::le_bytes(hi, 8)));
        assert(n + 8 - 1 == m + 8);
    }
}

/// Counter mode: block `b` of a stream is the encryption of sixteen bytes of
/// which the first eight write `b` and the last eight the stream's number.
/// Blocks of different streams, or at different places of one, are the
/// encryptions of different bytes.
pub proof fn law_counter_mode(key: Seq<u8>, stream: u64, b: u64, other: u64, d: u64)
    ensures
        stream_block(key, stream, b as nat) == aes256_block(key, counter_block(stream, b as nat)),
        counter_block(stream, b as nat).len() == 16,
        bytes::le_value(counter_block(stream, b as nat).take(8)) == b,
        bytes::le_value(counter_block(stream, b as nat).skip(8)) == stream,
        counter_block(stream, b as nat) == counter_block(other, d as nat) ==> stream == other && b
            == d,
{
    bytes::lemma_byte_pow_values();
    lemma_two_words(b as nat, stream as nat, 8);
    bytes::lemma_le_bytes_len(b as nat, 8);
    bytes::lemma_le_bytes_len(stream as nat, 8);
    bytes::lemma_le_bytes_len(d as nat, 8);
    bytes::law_le_round_trip(b as nat, 8);
    bytes::law_le_round_trip(stream as nat, 8);
    bytes::law_le_round_trip(d as nat, 8);
    bytes::law_le_round_trip(other as nat, 8);
    let (x, y) = (counter_block(stream, b as nat), counter_block(other, d as nat));
    assert(x.take(8) =~= bytes::le_bytes(b as nat, 8));
    assert(x.skip(8) =~= bytes::le_bytes(stream as nat, 8));
    assert(y.take(8) =~= bytes::le_bytes(d as nat, 8));
    assert(y.skip(8) =~= bytes::le_bytes(other as nat, 8));
}

/// Byte `p` of a stream is byte `p mod 16` of block `p / 16`, and a read of
/// `n` bytes takes them in order.
pub proof fn law_bytes_in_order(key: Seq<u8>, stream: u64, p: nat, n: nat, k: int)
    requires
        0 <= k < n,
    ensures
        stream_bytes(key, stream, p, n).len() == n,
        stream_bytes(key, stream, p, n)[k] == stream_block(key, stream, ((p + k) / 16) as nat)@[(p
            + k) % 16],
{
}

/// A word is read from the next place that leaves it within one refill of 128
/// bytes.
pub proof fn law_words_stay_in_a_refill(p: nat, n: nat)
    requires
        0 < n <= 128,
    ensures
        p <= aligned(p, n),
        aligned(p, n) / 128 == (aligned(p, n) + n - 1) / 128,
        forall|q: nat|
            p <= q < aligned(p, n) ==> #[trigger] (q / 128) != (q + n - 1) / 128,
{
    let a = aligned(p, n);
    assert forall|q: nat| p <= q < a implies #[trigger] (q / 128) != (q + n - 1) / 128 by {
        assert(q / 128 == p / 128);
    }
}

/// Where the next word stands, by the counter and the place in the buffer.
proof fn lemma_aligned(counter: u64, buf_pos: usize, n: nat)
    requires
        counter % 8 == 0,
        buf_pos <= 128,
        counter == 0 ==> buf_pos == 128,
        0 < n <= 128,
    ensures
        aligned((16 * counter + buf_pos - 128) as nat, n) == (if buf_pos + n > 128 {
            16 * counter as int
        } else {
            16 * counter + buf_pos - 128
        }),
{
    let p = (16 * counter + buf_pos - 128) as nat;
    let q = counter as nat / 8;
    assert(16 * counter == 128 * q);
    if buf_pos == 128 {
        assert(p % 128 == 0);
    } else {
        assert(p / 128 == q - 1);
        assert(p % 128 == buf_pos);
    }
}

/// The sixteen bytes of a number, least significant first.
fn le_bytes16(v: u128) -> (r: [u8; 16])
    ensures
        r@ == bytes::le_bytes(v as nat, 16),
{
    let b: Vec<u8> = bytes::to_le(v, 16);
    proof {
        bytes::lemma_le_bytes_len(v as nat, 16);
    }
    let mut out: [u8; 16] = [0u8; 16];
    let mut i: usize = 0;
    while i < 16
        invariant
            i <= 16,
            b@.len() == 16,
            forall|k: int| 0 <= k < i ==> out@[k] == b@[k],
        decreases 16 - i,
    {
        out[i] = b[i];
        i = i + 1;
    }
    proof {
        assert(out@ =~= b@);
    }
    out
}

} // verus!
