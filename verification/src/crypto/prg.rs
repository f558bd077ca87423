//! Random and pseudo-random byte generators.
use crate::crypto::domain::{lemma_u64_le_mod, u64_le, u64_to_le_bytes};
use crate::crypto::hasher::{Digest, Hasher};
use crate::word::composite::CompositeWord;
use crate::word::word::{le_bytes_val, Word};
use vstd::prelude::*;

verus! {

/// Generators of random bytes, modelled by the bytes they will produce next.
pub trait RandomGenerator: Sized {
    /// Well-formedness of the generator's state.
    spec fn wf(&self) -> bool;

    /// The `i`-th byte this generator will produce next.
    spec fn future(&self, i: nat) -> u8;

    /// Fills the given buffer with the next bytes of the generator.
    fn fill_bytes(&mut self, out: &mut [u8])
        requires
            old(self).wf(),
        ensures
            final(self).wf(),
            final(out)@.len() == old(out)@.len(),
            forall|k: int|
                0 <= k < old(out)@.len() ==> #[trigger] final(out)@[k] == old(self).future(k as nat),
            forall|i: nat| #[trigger] final(self).future(i) == old(self).future(i + old(out)@.len()),
    ;

    /// The next byte of the generator.
    fn next_byte(&mut self) -> (r: u8)
        requires
            old(self).wf(),
        ensures
            final(self).wf(),
            r == old(self).future(0),
            forall|i: nat| #[trigger] final(self).future(i) == old(self).future(i + 1),
    {
        let mut b: Vec<u8> = Vec::new();
        b.push(0u8);
        self.fill_bytes(b.as_mut_slice());
        b[0]
    }

    /// The next `n` bytes of the generator.
    fn next_bytes_vec(&mut self, n: usize) -> (r: Vec<u8>)
        requires
            old(self).wf(),
        ensures
            final(self).wf(),
            r@.len() == n,
            forall|k: int| 0 <= k < n ==> #[trigger] r@[k] == old(self).future(k as nat),
            forall|i: nat| #[trigger] final(self).future(i) == old(self).future((i + n) as nat),
    {
        let mut out: Vec<u8> = Vec::new();
        let mut i: usize = 0;
        while i < n
            invariant
                i <= n,
                out@.len() == i,
            decreases n - i,
        {
            out.push(0u8);
            i = i + 1;
        }
        self.fill_bytes(out.as_mut_slice());
        out
    }
}

/// The next `n` bytes of a generator in the given state.
pub open spec fn future_bytes<R: RandomGenerator>(r: R, start: nat, n: nat) -> Seq<u8> {
    Seq::new(n, |k: int| r.future(start + k as nat))
}

/// The words of width `w` with values `vals`, least significant first, are made of the next
/// little-endian bytes of the generator in state `before`, which it leaves in state `after`.
pub open spec fn draws_words<R: RandomGenerator>(before: R, vals: Seq<nat>, w: nat, after: R) -> bool {
    &&& forall|j: int| 0 <= j < vals.len() ==> #[trigger] vals[j] == le_bytes_val(future_bytes(before, (j * (w / 8)) as nat, w / 8))
    &&& forall|i: nat| #[trigger] after.future(i) == before.future((i + vals.len() * (w / 8)) as nat)
}

/// Pseudo-random generators, created from a seed: generators created from the same seed
/// produce the same stream of bytes.
pub trait PseudoRandomGenerator: RandomGenerator {
    /// The `i`-th byte of the stream of the generator created from `seed`.
    spec fn seeded(seed: Seq<u8>, i: nat) -> u8;

    /// Creates the generator for the given seed.
    fn new(seed: &[u8]) -> (r: Self)
        ensures
            r.wf(),
            forall|i: nat| #[trigger] r.future(i) == Self::seeded(seed@, i),
    ;
}

/// Types of values generated from random bytes.
pub trait GeneratesRandom<T>: Sized {
    /// Well-formedness of the generator, kept by [GeneratesRandom::next].
    spec fn gen_wf(&self) -> bool;

    /// Whether the generator can produce a value.
    spec fn gen_ready(&self) -> bool;

    /// Whether `r` is the value produced by a generator in state `before`, which it leaves in
    /// state `after`.
    spec fn generates(before: Self, r: T, after: Self) -> bool;

    /// The next random value.
    fn next(&mut self) -> (r: T)
        requires
            old(self).gen_ready(),
        ensures
            final(self).gen_wf(),
            Self::generates(*old(self), r, *final(self)),
    ;
}

/// Seeds of pseudo-random generators: byte strings of a fixed size.
pub trait Seed: Digest {
}

impl Seed for [u8; 32] {
}

impl<R: RandomGenerator, W: Word> GeneratesRandom<W> for R {
    open spec fn gen_wf(&self) -> bool {
        self.wf()
    }

    open spec fn gen_ready(&self) -> bool {
        self.wf()
    }

    /// The word whose little-endian bytes are the next bytes of the generator.
    open spec fn generates(before: Self, r: W, after: Self) -> bool {
        &&& r.value() == le_bytes_val(future_bytes(before, 0, W::spec_width() / 8))
        &&& forall|i: nat| #[trigger] after.future(i) == before.future(i + W::spec_width() / 8)
    }

    fn next(&mut self) -> (r: W) {
        proof {
            W::lemma_width();
        }
        let b = self.next_bytes_vec(W::width() / 8);
        proof {
            assert(b@ =~= future_bytes(*old(self), 0, W::spec_width() / 8));
        }
        W::from_le_bytes(b.as_slice())
    }
}

impl<R: RandomGenerator, W: Word, const N: usize> GeneratesRandom<CompositeWord<W, N>> for R {
    open spec fn gen_wf(&self) -> bool {
        self.wf()
    }

    open spec fn gen_ready(&self) -> bool {
        self.wf()
    }

    /// The composite word whose words, least significant first, are made of the next
    /// little-endian bytes of the generator.
    open spec fn generates(before: Self, r: CompositeWord<W, N>, after: Self) -> bool {
        &&& forall|j: int|
            0 <= j < N ==> #[trigger] r.words()[j].value() == le_bytes_val(
                future_bytes(before, (j * (W::spec_width() / 8)) as nat, W::spec_width() / 8),
            )
        &&& forall|i: nat|
            #[trigger] after.future(i) == before.future((i + N * (W::spec_width() / 8)) as nat)
    }

    fn next(&mut self) -> (r: CompositeWord<W, N>) {
        proof {
            W::lemma_width();
        }
        let nb = W::width() / 8;
        let mut bs: Vec<Vec<u8>> = Vec::new();
        let mut j: usize = 0;
        while j < N
            invariant
                nb == W::spec_width() / 8,
                0 < nb <= 16,
                j <= N,
                bs@.len() == j,
                self.wf(),
                forall|k: int| 0 <= k < j ==> #[trigger] bs@[k]@.len() == nb,
                forall|k: int|
                    0 <= k < j ==> #[trigger] bs@[k]@ == future_bytes(
                        *old(self),
                        (k * nb) as nat,
                        nb as nat,
                    ),
                forall|i: nat| #[trigger] self.future(i) == old(self).future((i + j * nb) as nat),
            decreases N - j,
        {
            let ghost before = *self;
            let b = self.next_bytes_vec(nb);
            proof {
                assert forall|k: int| 0 <= k < nb implies #[trigger] b@[k] == old(self).future(
                    ((j * nb) as nat + k) as nat,
                ) by {
                    assert(before.future(k as nat) == old(self).future((k + j * nb) as nat));
                }
                assert(b@ =~= future_bytes(*old(self), (j * nb) as nat, nb as nat));
                assert forall|i: nat| #[trigger] self.future(i) == old(self).future(
                    (i + (j + 1) * nb) as nat,
                ) by {
                    assert(before.future((i + nb) as nat) == old(self).future(((i + nb) + j * nb) as nat));
                    assert((i + nb) + j * nb == i + (j + 1) * nb) by (nonlinear_arith);
                }
            }
            bs.push(b);
            j = j + 1;
        }
        CompositeWord::<W, N>::from_le_bytes(&bs)
    }
}

impl<R: RandomGenerator, S: Seed> GeneratesRandom<[S; 3]> for R {
    open spec fn gen_wf(&self) -> bool {
        self.wf()
    }

    open spec fn gen_ready(&self) -> bool {
        self.wf()
    }

    /// Three seeds made of the next bytes of the generator, in order.
    open spec fn generates(before: Self, r: [S; 3], after: Self) -> bool {
        &&& r[0].bytes() == future_bytes(before, 0, S::size())
        &&& r[1].bytes() == future_bytes(before, S::size(), S::size())
        &&& r[2].bytes() == future_bytes(before, 2 * S::size(), S::size())
        &&& forall|i: nat| #[trigger] after.future(i) == before.future(i + 3 * S::size())
    }

    fn next(&mut self) -> (r: [S; 3]) {
        let n = S::byte_len();
        let ghost s0 = *self;
        let b0 = self.next_bytes_vec(n);
        let ghost s1 = *self;
        let b1 = self.next_bytes_vec(n);
        let ghost s2 = *self;
        let b2 = self.next_bytes_vec(n);
        proof {
            assert(b0@ =~= future_bytes(*old(self), 0, S::size()));
            assert forall|k: int| 0 <= k < n implies #[trigger] b1@[k] == old(self).future(
                (S::size() + k) as nat,
            ) by {
                assert(s1.future(k as nat) == s0.future((k + n) as nat));
            }
            assert(b1@ =~= future_bytes(*old(self), S::size(), S::size()));
            assert forall|k: int| 0 <= k < n implies #[trigger] b2@[k] == old(self).future(
                (2 * S::size() + k) as nat,
            ) by {
                assert(s2.future(k as nat) == s1.future((k + n) as nat));
                assert(s1.future((k + n) as nat) == s0.future((k + n + n) as nat));
            }
            assert(b2@ =~= future_bytes(*old(self), 2 * S::size(), S::size()));
            assert forall|i: nat| #[trigger] self.future(i) == old(self).future(i + 3 * S::size()) by {
                assert(self.future(i) == s2.future((i + n) as nat));
                assert(s2.future((i + n) as nat) == s1.future((i + n + n) as nat));
                assert(s1.future((i + n + n) as nat) == s0.future((i + n + n + n) as nat));
            }
        }
        [S::from_slice(b0.as_slice()), S::from_slice(b1.as_slice()), S::from_slice(b2.as_slice())]
    }
}

/// Pseudo-random generator hashing a key derived from the seed with a block counter: block
/// `c` of the stream is the digest of the key followed by `c` as 8 little-endian bytes, and
/// the key is the digest of the seed.
pub struct HashPRG<H: Hasher> {
    hasher: H,
    key: H::Digest,
    counter: u64,
    blocks: Ghost<nat>,
    buf: H::Digest,
    pos: usize,
}

impl<H: Hasher> HashPRG<H> {
    /// Block `c` of the stream of the given key.
    pub open spec fn block(key: Seq<u8>, c: nat) -> Seq<u8> {
        H::digest_of(key + u64_le(c))
    }

    /// Byte `j` of the stream of the given key.
    pub open spec fn stream_byte(key: Seq<u8>, j: nat) -> u8 {
        let ds = <H::Digest as Digest>::size();
        Self::block(key, j / ds)[(j % ds) as int]
    }

    /// The number of blocks drawn from the stream so far.
    pub closed spec fn blocks_drawn(self) -> nat {
        self.blocks@
    }

    /// The position in the stream of the next byte.
    pub closed spec fn position(self) -> nat {
        (self.blocks@ * <H::Digest as Digest>::size() + self.pos - <H::Digest as Digest>::size()) as nat
    }

    /// The number of bytes left in the buffer.
    pub closed spec fn buffered(self) -> nat {
        (<H::Digest as Digest>::size() - self.pos) as nat
    }

    /// The key of the stream.
    pub closed spec fn spec_key(self) -> Seq<u8> {
        self.key.bytes()
    }

    /// The block held in the buffer.
    pub closed spec fn spec_buffer(self) -> Seq<u8> {
        self.buf.bytes()
    }

    /// Byte `p` of block `b` is byte `b * ds + p` of the stream.
    proof fn lemma_stream_at(key: Seq<u8>, b: nat, p: nat)
        requires
            p < <H::Digest as Digest>::size(),
        ensures
            Self::stream_byte(key, b * <H::Digest as Digest>::size() + p) == Self::block(key, b)[p as int],
    {
        let ds = <H::Digest as Digest>::size();
        vstd::arithmetic::div_mod::lemma_fundamental_div_mod_converse(
            (b * ds + p) as int,
            ds as int,
            b as int,
            p as int,
        );
    }

    /// Once a block is drawn, the position is that of the buffer's next byte within it.
    proof fn lemma_position(self)
        requires
            self.wf(),
            self.blocks@ > 0,
        ensures
            self.position() == ((self.blocks@ - 1) as nat) * <H::Digest as Digest>::size() + self.pos,
    {
        let ds = <H::Digest as Digest>::size();
        let b = self.blocks@;
        assert(((b - 1) as nat) * ds == b * ds - ds) by (nonlinear_arith)
            requires
                b > 0,
        ;
    }

    /// The number of bytes left in the buffer.
    pub fn available_bytes(&self) -> (r: usize)
        requires
            self.wf(),
        ensures
            r == self.buffered(),
    {
        H::digest_size() - self.pos
    }

    /// Whether the buffer is used up, so that the next byte comes from a new block.
    pub fn is_buffer_empty(&self) -> (r: bool)
        requires
            self.wf(),
        ensures
            r == (self.buffered() == 0),
    {
        self.pos == H::digest_size()
    }

    /// Replaces the buffer by the next block of the stream, dropping what was left of the
    /// current one.
    pub fn refill_buffer(&mut self)
        requires
            old(self).wf(),
        ensures
            final(self).wf(),
            final(self).position() == old(self).blocks_drawn() * <H::Digest as Digest>::size(),
            final(self).blocks_drawn() == old(self).blocks_drawn() + 1,
            final(self).spec_key() == old(self).spec_key(),
            final(self).buffered() == <H::Digest as Digest>::size(),
            final(self).spec_buffer() == H::digest_of(old(self).spec_key() + Seq::new(
                8,
                |t: int| ((old(self).blocks_drawn() / vstd::arithmetic::power2::pow2((8 * t) as nat)) % 256) as u8,
            )),
    {
        self.hasher.update(self.key.as_slice());
        let ctr = u64_to_le_bytes(self.counter);
        self.hasher.update(ctr.as_slice());
        self.buf = self.hasher.finalize();
        proof {
            lemma_u64_le_mod(old(self).blocks@);
            assert(Seq::<u8>::empty() + self.key.bytes() + u64_le(old(self).counter as nat) =~= self.key.bytes()
                + u64_le(old(self).blocks@));
            vstd::arithmetic::div_mod::lemma_add_mod_noop(
                old(self).blocks@ as int,
                1,
                0x1_0000_0000_0000_0000,
            );
        }
        self.counter = self.counter.wrapping_add(1);
        self.blocks = Ghost(self.blocks@ + 1);
        self.pos = 0;
        proof {
            let ds = <H::Digest as Digest>::size();
            let b0 = old(self).blocks@;
            assert((b0 + 1) * ds == b0 * ds + ds) by (nonlinear_arith);
        }
    }
}

impl<H: Hasher> RandomGenerator for HashPRG<H> {
    /// The hasher is idle, the buffer holds the last block drawn, and the counter is the
    /// number of blocks drawn modulo 2^64.
    closed spec fn wf(&self) -> bool {
        let ds = <H::Digest as Digest>::size();
        &&& self.hasher.absorbed() == Seq::<u8>::empty()
        &&& ds > 0
        &&& self.pos <= ds
        &&& self.key.bytes().len() == ds
        &&& self.buf.bytes().len() == ds
        &&& self.counter as nat == self.blocks@ % 0x1_0000_0000_0000_0000
        &&& self.blocks@ > 0 ==> self.buf.bytes() == Self::block(
            self.key.bytes(),
            (self.blocks@ - 1) as nat,
        )
        &&& self.blocks@ == 0 ==> self.pos == ds
    }

    closed spec fn future(&self, i: nat) -> u8 {
        Self::stream_byte(self.key.bytes(), self.position() + i)
    }

    /// Copies bytes from the buffer, refilling it with the next block whenever it is used up.
    fn fill_bytes(&mut self, out: &mut [u8]) {
        let ghost start = self.position();
        let ghost key = self.key.bytes();
        let ghost ds = <H::Digest as Digest>::size();
        if self.is_buffer_empty() {
            self.refill_buffer();
        }
        let n = out.len();
        let mut written: usize = 0;
        while written < n
            invariant
                self.wf(),
                ds == <H::Digest as Digest>::size(),
                key == self.key.bytes(),
                key == old(self).key.bytes(),
                start == old(self).position(),
                n == out@.len(),
                n == old(out)@.len(),
                written <= n,
                self.position() == start + written,
                forall|k: int| 0 <= k < written ==> #[trigger] out@[k] == Self::stream_byte(key, start + k as nat),
            decreases n - written,
        {
            if self.is_buffer_empty() {
                self.refill_buffer();
            }
            let available = self.available_bytes();
            let needed = n - written;
            let m = if available < needed { available } else { needed };
            let mut k: usize = 0;
            while k < m
                invariant
                    self.wf(),
                    ds == <H::Digest as Digest>::size(),
                    key == self.key.bytes(),
                    n == out@.len(),
                    k <= m,
                    written + m <= n,
                    self.pos + (m - k) <= ds,
                    self.blocks@ > 0,
                    self.position() == start + written + k,
                    forall|j: int| 0 <= j < written + k ==> #[trigger] out@[j] == Self::stream_byte(key, start + j as nat),
                decreases m - k,
            {
                let b = self.buf.as_slice()[self.pos];
                proof {
                    Self::lemma_stream_at(key, (self.blocks@ - 1) as nat, self.pos as nat);
                    self.lemma_position();
                }
                out[written + k] = b;
                self.pos = self.pos + 1;
                proof {
                    self.lemma_position();
                }
                k = k + 1;
            }
            written = written + m;
        }
        proof {
            assert forall|i: nat| #[trigger] self.future(i) == old(self).future(i + old(out)@.len()) by {
                assert(self.position() + i == old(self).position() + (i + old(out)@.len()));
            }
        }
    }

    /// The next byte of the buffer, refilled first if it is used up.
    fn next_byte(&mut self) -> (r: u8) {
        if self.is_buffer_empty() {
            self.refill_buffer();
        }
        let byte = self.buf.as_slice()[self.pos];
        proof {
            Self::lemma_stream_at(self.key.bytes(), (self.blocks@ - 1) as nat, self.pos as nat);
            self.lemma_position();
        }
        let ghost mid = *self;
        self.pos = self.pos + 1;
        proof {
            mid.lemma_position();
            self.lemma_position();
            assert forall|i: nat| #[trigger] self.future(i) == old(self).future(i + 1) by {
                assert(self.position() + i == mid.position() + (i + 1));
            }
        }
        byte
    }
}

impl<H: Hasher> PseudoRandomGenerator for HashPRG<H> {
    open spec fn seeded(seed: Seq<u8>, i: nat) -> u8 {
        Self::stream_byte(H::digest_of(seed), i)
    }

    /// Hashes the seed into the key; no block is drawn yet.
    fn new(seed: &[u8]) -> (r: Self) {
        let mut hasher = H::new();
        hasher.update(seed);
        let key = hasher.finalize();
        proof {
            assert(Seq::<u8>::empty() + seed@ =~= seed@);
        }
        HashPRG {
            hasher,
            key,
            counter: 0,
            blocks: Ghost(0),
            buf: <H::Digest as Digest>::zeroed(),
            pos: H::digest_size(),
        }
    }
}

/// The 8 little-endian bytes of the counter `c` (taken modulo 2^64), written out digit by digit.
pub open spec fn le8(c: nat) -> Seq<u8> {
    Seq::new(8, |t: int| ((c / vstd::arithmetic::power2::pow2((8 * t) as nat)) % 256) as u8)
}

/// The stream of a hash-based generator created from `seed`: byte `i` is byte `i mod ds` of
/// the digest of the key (the digest of the seed) followed by the 8 little-endian bytes of the
/// block number `i / ds`, where `ds` is the digest size. In particular the blocks are digests of
/// the key with a counter that goes up by one from zero.
pub proof fn lemma_hash_prg_stream<H: Hasher>(seed: Seq<u8>, i: nat)
    ensures
        HashPRG::<H>::seeded(seed, i) == H::digest_of(H::digest_of(seed) + Seq::new(
            8,
            |t: int| ((i / <H::Digest as Digest>::size()) / vstd::arithmetic::power2::pow2((8 * t) as nat) % 256) as u8,
        ))[(i % <H::Digest as Digest>::size()) as int],
{
    let c = i / <H::Digest as Digest>::size();
    assert(u64_le(c) =~= Seq::new(
        8,
        |t: int| (c / vstd::arithmetic::power2::pow2((8 * t) as nat) % 256) as u8,
    ));
}

/// Every byte a well-formed hash-based generator will produce is taken from the digest of its
/// key followed by the 8 little-endian bytes of the number of the block it falls in, counted
/// in the whole stream.
pub proof fn lemma_hash_prg_future<H: Hasher>(g: HashPRG<H>, i: nat)
    requires
        g.wf(),
    ensures
        g.future(i) == H::digest_of(g.spec_key() + le8((g.position() + i) / <H::Digest as Digest>::size()))[
            ((g.position() + i) % <H::Digest as Digest>::size()) as int],
{
    let c = (g.position() + i) / <H::Digest as Digest>::size();
    assert(u64_le(c) =~= le8(c));
}

/// The 8 little-endian bytes of two counters below 2^64 differ when the counters do, so the
/// blocks of a stream are digests of distinct inputs.
pub proof fn lemma_le8_injective(c1: nat, c2: nat)
    requires
        c1 < 0x1_0000_0000_0000_0000,
        c2 < 0x1_0000_0000_0000_0000,
        c1 != c2,
    ensures
        le8(c1) != le8(c2),
{
    if le8(c1) == le8(c2) {
        assert forall|k: nat| k < 8 implies #[trigger] digit(c1, k) == digit(c2, k) by {
            assert(le8(c1)[k as int] == le8(c2)[k as int]);
        }
        vstd::arithmetic::power2::lemma2_to64();
        vstd::arithmetic::power2::lemma2_to64_rest();
        lemma_digits_eq(c1, c2, 8);
    }
}

/// Digit `k` in base 256 of `a`.
spec fn digit(a: nat, k: nat) -> nat {
    (a / vstd::arithmetic::power2::pow2(8 * k)) % 256
}

/// Two numbers below 2^(8n) with the same n base-256 digits are equal.
proof fn lemma_digits_eq(a: nat, b: nat, n: nat)
    requires
        a < vstd::arithmetic::power2::pow2(8 * n),
        b < vstd::arithmetic::power2::pow2(8 * n),
        forall|k: nat| k < n ==> #[trigger] digit(a, k) == digit(b, k),
    ensures
        a == b,
    decreases n,
{
    vstd::arithmetic::power2::lemma2_to64();
    if n == 0 {
    } else {
        assert(digit(a, 0) == digit(b, 0));
        assert(vstd::arithmetic::power2::pow2(0) == 1);
        assert(a / 1 == a && b / 1 == b) by (nonlinear_arith);
        assert(a % 256 == b % 256);
        let a1 = a / 256;
        let b1 = b / 256;
        vstd::arithmetic::power2::lemma_pow2_adds(8, (8 * (n - 1)) as nat);
        assert(8 + 8 * (n - 1) == 8 * n);
        assert forall|k: nat| k < n - 1 implies #[trigger] digit(a1, k) == digit(b1, k) by {
            vstd::arithmetic::power2::lemma_pow2_adds(8, 8 * k);
            vstd::arithmetic::power2::lemma_pow2_pos(8 * k);
            vstd::arithmetic::div_mod::lemma_div_denominator(a as int, 256, vstd::arithmetic::power2::pow2(8 * k) as int);
            vstd::arithmetic::div_mod::lemma_div_denominator(b as int, 256, vstd::arithmetic::power2::pow2(8 * k) as int);
            assert(8 + 8 * k == 8 * (k + 1));
            assert(digit(a, k + 1) == digit(b, k + 1));
        }
        vstd::arithmetic::power2::lemma_pow2_pos((8 * (n - 1)) as nat);
        vstd::arithmetic::div_mod::lemma_multiply_divide_lt(a as int, 256, vstd::arithmetic::power2::pow2((8 * (n - 1)) as nat) as int);
        vstd::arithmetic::div_mod::lemma_multiply_divide_lt(b as int, 256, vstd::arithmetic::power2::pow2((8 * (n - 1)) as nat) as int);
        lemma_digits_eq(a1, b1, (n - 1) as nat);
        vstd::arithmetic::div_mod::lemma_fundamental_div_mod(a as int, 256);
        vstd::arithmetic::div_mod::lemma_fundamental_div_mod(b as int, 256);
    }
}

} // verus!
