//! The parties of the protocol, packed party vectors, and the challenge generator.
use crate::crypto::prg::{GeneratesRandom, PseudoRandomGenerator, RandomGenerator};
use vstd::prelude::*;

verus! {

/// A party in the three-party protocol simulated by the prover: party 0, 1 or 2.
#[derive(Clone, Copy, PartialEq, Eq, Structural, Debug)]
pub struct Party {
    index: u8,
}

impl crate::backend::hook::Reusable for Party {
    fn duplicate(&self) -> (r: Self) {
        *self
    }
}

impl Party {
    /// A party's index is 0, 1 or 2.
    #[verifier::type_invariant]
    spec fn inv(self) -> bool {
        self.index < 3
    }

    /// The index of this party (its field is below 3, so that the reduction changes nothing).
    pub closed spec fn spec_index(self) -> nat {
        (self.index % 3) as nat
    }

    /// The party of index `i`, for `i` below 3.
    pub closed spec fn of_index(i: nat) -> Party {
        Party { index: i as u8 }
    }

    /// The party of index `i` has index `i`.
    pub proof fn lemma_of_index(i: nat)
        requires
            i < 3,
        ensures
            Self::of_index(i).spec_index() == i,
    {
    }

    /// The index of every party is 0, 1 or 2.
    pub proof fn lemma_index(self)
        ensures
            self.spec_index() < 3,
    {
    }

    /// The party with the given index modulo 3.
    pub fn from_index(index: usize) -> (r: Self)
        ensures
            r.spec_index() == index % 3,
    {
        Party { index: (index % 3) as u8 }
    }

    /// The index of this party, 0, 1 or 2.
    pub fn index(&self) -> (r: usize)
        ensures
            r == self.spec_index(),
            r < 3,
    {
        proof {
            use_type_invariant(self);
        }
        self.index as usize
    }

    /// The next party, in round-robin order.
    pub fn next(self) -> (r: Self)
        ensures
            r.spec_index() == (self.spec_index() + 1) % 3,
    {
        proof {
            use_type_invariant(self);
        }
        Party { index: (self.index + 1) % 3 }
    }
}

impl From<u8> for Party {
    /// The party with the given index modulo 3.
    fn from(index: u8) -> (r: Self) {
        Party { index: index % 3 }
    }
}

impl vstd::std_specs::convert::FromSpecImpl<u8> for Party {
    open spec fn obeys_from_spec() -> bool {
        true
    }

    open spec fn from_spec(v: u8) -> Self {
        Party::of_index((v % 3) as nat)
    }
}

impl From<usize> for Party {
    /// The party with the given index modulo 3.
    fn from(index: usize) -> (r: Self) {
        Party { index: (index % 3) as u8 }
    }
}

impl vstd::std_specs::convert::FromSpecImpl<usize> for Party {
    open spec fn obeys_from_spec() -> bool {
        true
    }

    open spec fn from_spec(v: usize) -> Self {
        Party::of_index((v % 3) as nat)
    }
}

/// The 2-bit field of party `i` of a packed vector of bytes: the four parties of a byte are
/// stored from its most significant bit pair down.
pub open spec fn packed_party(bytes: Seq<u8>, i: nat) -> nat {
    ((bytes[(i / 4) as int] >> (2 * (3 - i % 4)) as u8) & 3u8) as nat
}

/// Vector of parties packed four to a byte.
#[derive(Clone, PartialEq, Eq, Debug)]
pub struct PartyVec {
    bytes: Vec<u8>,
    len: usize,
}

impl PartyVec {
    /// The indices of the parties held, in order.
    pub closed spec fn view(self) -> Seq<nat> {
        Seq::new(self.len as nat, |i: int| packed_party(self.bytes@, i as nat))
    }

    /// The bytes hold exactly the fields of the parties, each 0, 1 or 2, and the unused
    /// fields of the last byte are zero.
    pub closed spec fn wf(self) -> bool {
        &&& self.bytes@.len() == (self.len + 3) / 4
        &&& forall|i: nat| i < self.len ==> #[trigger] packed_party(self.bytes@, i) < 3
        &&& forall|i: nat| self.len <= i < 4 * self.bytes@.len() ==> #[trigger] packed_party(self.bytes@, i) == 0
    }

    /// Creates an empty vector.
    pub fn new() -> (r: Self)
        ensures
            r.wf(),
            r.view() == Seq::<nat>::empty(),
    {
        PartyVec { bytes: Vec::new(), len: 0 }
    }

    /// Creates an empty vector with room for the given number of parties.
    pub fn with_capacity(capacity: usize) -> (r: Self)
        ensures
            r.wf(),
            r.view() == Seq::<nat>::empty(),
    {
        let cap = capacity / 4 + 1;
        PartyVec { bytes: Vec::with_capacity(cap), len: 0 }
    }

    /// The byte holding party `index` and the shift of its field in that byte.
    pub fn byte_idx_and_shift(index: usize) -> (r: (usize, u8))
        ensures
            r.0 == index / 4,
            r.1 == 2 * (3 - index % 4),
    {
        let byte_idx = index / 4;
        let bitpair_idx = (index % 4) as u8;
        let shift = 2u8 * (3u8 - bitpair_idx);
        (byte_idx, shift)
    }

    /// The number of parties held.
    pub fn len(&self) -> (r: usize)
        ensures
            r == self.view().len(),
    {
        self.len
    }

    /// Appends a party.
    pub fn push(&mut self, party: Party)
        requires
            old(self).wf(),
            old(self).view().len() < usize::MAX,
        ensures
            final(self).wf(),
            final(self).view() == old(self).view().push(party.spec_index()),
    {
        proof {
            party.lemma_index();
        }
        let ghost old_bytes = self.bytes@;
        if self.len % 4 == 0 {
            self.bytes.push(0u8);
        }
        let (byte_idx, shift) = Self::byte_idx_and_shift(self.len);
        let ghost before = self.bytes@;
        let b = self.bytes[byte_idx];
        let p = party.index() as u8;
        let nb = b | (p << shift);
        self.bytes.set(byte_idx, nb);
        proof {
            let n = old(self).len as nat;
            assert(before.len() == (n + 4) / 4);
            assert(before.len() == old_bytes.len() || (n % 4 == 0 && before == old_bytes.push(0u8)));
            assert forall|i: nat| i < 4 * self.bytes@.len() implies #[trigger] packed_party(self.bytes@, i) == if i == n {
                p as nat
            } else if i < n {
                packed_party(old_bytes, i)
            } else {
                0
            } by {
                let s = (2 * (3 - i % 4)) as u8;
                let bi = before[(i / 4) as int];
                if i / 4 == n / 4 {
                    assert(self.bytes@[(i / 4) as int] == bi | (p << shift));
                    let sh = shift;
                    assert(s <= 6 && sh <= 6 && s % 2 == 0 && sh % 2 == 0);
                    assert((i == n) == (s == sh));
                    assert((((bi | (p << sh)) >> s) & 3u8) == if s == sh {
                        ((bi >> s) & 3u8) | p
                    } else {
                        (bi >> s) & 3u8
                    }) by (bit_vector)
                        requires
                            p < 3,
                            s <= 6,
                            sh <= 6,
                            s % 2 == 0,
                            sh % 2 == 0,
                    ;
                    if n % 4 == 0 {
                        assert(bi == 0u8);
                        assert((0u8 >> s) & 3u8 == 0u8) by (bit_vector);
                        assert(i >= n);
                    } else {
                        assert(bi == old_bytes[(i / 4) as int]);
                        if i >= n {
                            assert(packed_party(old_bytes, i) == 0);
                            assert((bi >> s) & 3u8 == 0u8);
                        }
                    }
                    if i == n {
                        assert((0u8 | p) == p) by (bit_vector);
                    }
                } else {
                    assert(i / 4 < n / 4);
                    assert(self.bytes@[(i / 4) as int] == bi);
                    assert(bi == old_bytes[(i / 4) as int]);
                }
            }
        }
        self.len = self.len + 1;
        proof {
            assert(self.view() =~= old(self).view().push(party.spec_index()));
        }
    }

    /// The party at the given position, or `None` past the end.
    pub fn get(&self, index: usize) -> (r: Option<Party>)
        requires
            self.wf(),
        ensures
            index < self.view().len() ==> r is Some && r->0.spec_index() == self.view()[index as int],
            index >= self.view().len() ==> r is None,
    {
        if index >= self.len {
            return None;
        }
        let (byte_idx, shift) = Self::byte_idx_and_shift(index);
        let idx = (self.bytes[byte_idx] >> shift) & 3u8;
        proof {
            assert(packed_party(self.bytes@, index as nat) < 3);
        }
        Some(Party { index: idx })
    }

    /// An iterator over the parties, from the first.
    pub fn iter(&self) -> (r: PartyIter<'_>)
        ensures
            r.spec_vec() == *self,
            r.spec_pos() == 0,
    {
        PartyIter { vec: self, pos: 0 }
    }
}

/// Iterator over the parties of a [PartyVec].
pub struct PartyIter<'a> {
    vec: &'a PartyVec,
    pos: usize,
}

impl<'a> PartyIter<'a> {
    /// The vector iterated over.
    pub closed spec fn spec_vec(self) -> PartyVec {
        *self.vec
    }

    /// The position of the next party.
    pub closed spec fn spec_pos(self) -> nat {
        self.pos as nat
    }

    /// The next party, or `None` at the end.
    pub fn next(&mut self) -> (r: Option<Party>)
        requires
            old(self).spec_vec().wf(),
        ensures
            final(self).spec_vec() == old(self).spec_vec(),
            old(self).spec_pos() < old(self).spec_vec().view().len() ==> {
                &&& r is Some
                &&& r->0.spec_index() == old(self).spec_vec().view()[old(self).spec_pos() as int]
                &&& final(self).spec_pos() == old(self).spec_pos() + 1
            },
            old(self).spec_pos() >= old(self).spec_vec().view().len() ==> r is None && final(self).spec_pos()
                == old(self).spec_pos(),
    {
        if self.pos >= self.vec.len {
            return None;
        }
        let (byte_idx, shift) = PartyVec::byte_idx_and_shift(self.pos);
        let idx: u8 = (self.vec.bytes[byte_idx] >> shift) & 3u8;
        proof {
            assert(packed_party(self.vec.bytes@, self.pos as nat) < 3);
        }
        self.pos = self.pos + 1;
        Some(Party { index: idx })
    }
}

/// The 2-bit fields of a byte, least significant first, that the challenge generator has not
/// used: `unused` of them remain.
pub open spec fn byte_pair(b: u8, k: nat) -> nat {
    ((b >> (2 * k) as u8) & 3u8) as nat
}

/// Samples parties from a random generator by rejection sampling on bit pairs: bytes are
/// drawn one at a time and split into four bit pairs, least significant first, and the pair
/// `0b11` is rejected.
pub struct ChallengeGenerator<R: RandomGenerator> {
    generator: R,
    current_byte: u8,
    bits_used: u8,
}

impl<R: RandomGenerator> ChallengeGenerator<R> {
    /// The random generator drawn from.
    pub closed spec fn spec_generator(self) -> R {
        self.generator
    }

    /// The bit pairs still to be used in the current byte.
    pub closed spec fn buffered(self) -> nat {
        ((8 - self.bits_used) / 2) as nat
    }

    /// The `t`-th bit pair this generator will use next.
    pub closed spec fn pair(self, t: nat) -> nat {
        let u = self.buffered();
        if t < u {
            byte_pair(self.current_byte, t)
        } else {
            byte_pair(self.generator.future(((t - u) / 4) as nat), ((t - u) % 4) as nat)
        }
    }

    /// The generator is well formed, and the buffered pairs are the low pairs of the byte.
    pub closed spec fn wf(self) -> bool {
        &&& self.generator.wf()
        &&& self.bits_used <= 8
        &&& self.bits_used % 2 == 0
    }

    /// Creates a challenge generator drawing from the given random generator.
    pub fn new(generator: R) -> (r: Self)
        requires
            generator.wf(),
        ensures
            r.wf(),
            r.spec_generator() == generator,
            forall|t: nat| #[trigger] r.pair(t) == byte_pair(generator.future(t / 4), t % 4),
    {
        ChallengeGenerator { generator, current_byte: 0, bits_used: 8 }
    }
}

impl<R: RandomGenerator> ChallengeGenerator<R> {
    /// The next party, if a bit pair other than `0b11` lies within the next `max_pairs` bit
    /// pairs: the first such pair, the pairs up to it being used; otherwise `None`, the
    /// `max_pairs` pairs being used.
    pub fn try_next(&mut self, max_pairs: usize) -> (r: Option<Party>)
        requires
            old(self).wf(),
        ensures
            final(self).wf(),
            match r {
                Some(p) => {
                    &&& first_valid(*old(self)) < max_pairs
                    &&& old(self).pair(first_valid(*old(self))) != 3
                    &&& <Self as GeneratesRandom<Party>>::generates(*old(self), p, *final(self))
                },
                None => forall|s: nat| s < max_pairs ==> #[trigger] old(self).pair(s) == 3,
            },
    {
        let ghost start = *self;
        let mut tries: usize = 0;
        let mut party: u8 = 3;
        while tries < max_pairs && party > 2
            invariant
                self.wf(),
                party <= 3,
                tries <= max_pairs,
                party == 3 ==> forall|s: nat| s < tries ==> #[trigger] start.pair(s) == 3,
                party < 3 ==> tries >= 1 && party == start.pair((tries - 1) as nat) && forall|s: nat| s < tries - 1 ==> #[trigger] start.pair(s) == 3,
                forall|t: nat| #[trigger] self.pair(t) == start.pair(t + tries as nat),
            decreases max_pairs - tries,
        {
            if self.bits_used == 8 {
                let ghost before = *self;
                self.current_byte = self.generator.next_byte();
                self.bits_used = 0;
                proof {
                    assert forall|t: nat| #[trigger] self.pair(t) == start.pair(t + tries as nat) by {
                        assert(before.buffered() == 0);
                        if t < 4 {
                            assert(before.pair(t) == byte_pair(before.generator.future(0), t));
                        } else {
                            assert(((t - 4) / 4) as nat + 1 == (t / 4) as nat);
                            assert(before.pair(t) == byte_pair(before.generator.future((t / 4) as nat), t % 4));
                        }
                    }
                }
            }
            let ghost before = *self;
            proof {
                let c = self.current_byte;
                assert(c & 3u8 <= 3u8 && (c >> 0u8) & 3u8 == c & 3u8) by (bit_vector);
                assert(before.buffered() > 0);
            }
            party = self.current_byte & 3u8;
            self.current_byte = self.current_byte >> 2u8;
            self.bits_used = self.bits_used + 2;
            proof {
                assert(party as nat == before.pair(0));
                assert(party as nat == start.pair(tries as nat));
                assert forall|t: nat| #[trigger] self.pair(t) == before.pair(t + 1) by {
                    let c = before.current_byte;
                    let k = t as u8;
                    if t < self.buffered() {
                        assert(t < 3);
                        assert(((c >> 2u8) >> (2 * k)) & 3u8 == (c >> (2 * (k + 1))) & 3u8) by (bit_vector)
                            requires
                                k < 3,
                        ;
                    } else {
                        assert(t + 1 - before.buffered() == t - self.buffered());
                    }
                }
            }
            tries = tries + 1;
        }
        if party > 2 {
            None
        } else {
            proof {
                let t = (tries - 1) as nat;
                lemma_first_valid_unique(start, t);
            }
            Some(Party { index: party })
        }
    }
}

/// The first bit pair other than `0b11` is the one with only `0b11` pairs before it.
pub proof fn lemma_first_valid_unique<R: RandomGenerator>(g: ChallengeGenerator<R>, t: nat)
    requires
        g.pair(t) != 3,
        forall|s: nat| s < t ==> #[trigger] g.pair(s) == 3,
    ensures
        first_valid(g) == t,
{
    lemma_first_valid(g);
    let f = first_valid(g);
    if f < t {
        assert(g.pair(f) == 3);
    }
    if t < f {
        assert(g.pair(t) == 3);
    }
}

/// The position of the first bit pair that is not `0b11`.
pub open spec fn first_valid<R: RandomGenerator>(g: ChallengeGenerator<R>) -> nat {
    choose|t: nat| g.pair(t) != 3 && forall|s: nat| s < t ==> #[trigger] g.pair(s) == 3
}

impl<R: RandomGenerator> GeneratesRandom<Party> for ChallengeGenerator<R> {
    open spec fn gen_wf(&self) -> bool {
        self.wf()
    }

    /// The generator is well formed and a bit pair other than `0b11` lies ahead.
    open spec fn gen_ready(&self) -> bool {
        &&& self.wf()
        &&& exists|t: nat| #[trigger] self.pair(t) != 3
    }

    /// The party is the first bit pair other than `0b11`, and the pairs up to it are used.
    open spec fn generates(before: Self, r: Party, after: Self) -> bool {
        &&& r.spec_index() == before.pair(first_valid(before))
        &&& forall|t: nat| #[trigger] after.pair(t) == before.pair(t + first_valid(before) + 1)
    }

    fn next(&mut self) -> (r: Party) {
        proof {
            lemma_first_valid(*self);
        }
        let ghost start = *self;
        let ghost target = first_valid(start);
        let mut party: u8 = 3;
        let ghost mut used: nat = 0;
        while party > 2
            invariant
                self.wf(),
                party <= 3,
                start.pair(target) != 3,
                forall|s: nat| s < target ==> #[trigger] start.pair(s) == 3,
                party == 3 ==> used <= target,
                party < 3 ==> used == target + 1 && party == start.pair(target),
                forall|t: nat| #[trigger] self.pair(t) == start.pair(t + used),
            decreases target + 1 - used,
        {
            if self.bits_used == 8 {
                let ghost before = *self;
                self.current_byte = self.generator.next_byte();
                self.bits_used = 0;
                proof {
                    assert forall|t: nat| #[trigger] self.pair(t) == start.pair(t + used) by {
                        assert(before.buffered() == 0);
                        if t < 4 {
                            assert(before.pair(t) == byte_pair(before.generator.future(0), t));
                        } else {
                            assert(((t - 4) / 4) as nat + 1 == (t / 4) as nat);
                            assert(before.pair(t) == byte_pair(before.generator.future((t / 4) as nat), t % 4));
                        }
                    }
                }
            }
            let ghost before = *self;
            proof {
                let c = self.current_byte;
                assert(c & 3u8 <= 3u8 && (c >> 0u8) & 3u8 == c & 3u8) by (bit_vector);
                assert(before.buffered() > 0);
            }
            party = self.current_byte & 3u8;
            self.current_byte = self.current_byte >> 2u8;
            self.bits_used = self.bits_used + 2;
            proof {
                assert(party as nat == before.pair(0));
                assert forall|t: nat| #[trigger] self.pair(t) == before.pair(t + 1) by {
                    let c = before.current_byte;
                    let k = t as u8;
                    if t < self.buffered() {
                        assert(t < 3);
                        assert(((c >> 2u8) >> (2 * k)) & 3u8 == (c >> (2 * (k + 1))) & 3u8) by (bit_vector)
                            requires
                                k < 3,
                        ;
                    } else {
                        assert(t + 1 - before.buffered() == t - self.buffered());
                    }
                }
                if party == 3 {
                    assert(start.pair(used) == 3);
                    if used == target {
                        assert(false);
                    }
                } else {
                    if used < target {
                        assert(start.pair(used) == 3);
                    }
                }
                used = used + 1;
            }
        }
        Party { index: party }
    }
}

/// The first bit pair other than `0b11` exists when one does.
pub proof fn lemma_first_valid<R: RandomGenerator>(g: ChallengeGenerator<R>)
    requires
        exists|t: nat| #[trigger] g.pair(t) != 3,
    ensures
        g.pair(first_valid(g)) != 3,
        forall|s: nat| s < first_valid(g) ==> #[trigger] g.pair(s) == 3,
{
    let t0 = choose|t: nat| #[trigger] g.pair(t) != 3;
    lemma_min_valid(g, t0);
}

/// Below a valid bit pair there is a least one.
proof fn lemma_min_valid<R: RandomGenerator>(g: ChallengeGenerator<R>, t0: nat)
    requires
        g.pair(t0) != 3,
    ensures
        exists|t: nat| g.pair(t) != 3 && forall|s: nat| s < t ==> #[trigger] g.pair(s) == 3,
    decreases t0,
{
    if forall|s: nat| s < t0 ==> #[trigger] g.pair(s) == 3 {
    } else {
        let s = choose|s: nat| s < t0 && #[trigger] g.pair(s) != 3;
        lemma_min_valid(g, s);
    }
}


impl<R: RandomGenerator> ChallengeGenerator<R> {
    /// The bit pairs this generator will use, in order.
    pub open spec fn pairs(self) -> spec_fn(nat) -> nat {
        |t: nat| self.pair(t)
    }
}

/// The bit pairs of the stream of the pseudo-random generator created from `seed`, least
/// significant first within each byte.
pub open spec fn seeded_pairs<P: PseudoRandomGenerator>(seed: Seq<u8>) -> spec_fn(nat) -> nat {
    |t: nat| byte_pair(P::seeded(seed, t / 4), t % 4)
}

/// A stream of bit pairs without its first `n` pairs.
pub open spec fn shifted(s: spec_fn(nat) -> nat, n: nat) -> spec_fn(nat) -> nat {
    |t: nat| s(t + n)
}

/// The position of the first bit pair of the stream that is not `0b11`.
pub open spec fn first_valid_pair(s: spec_fn(nat) -> nat) -> nat {
    choose|t: nat| is_first_valid(s, t)
}

/// Whether pair `t` of the stream is not `0b11` and all pairs before it are.
pub open spec fn is_first_valid(s: spec_fn(nat) -> nat, t: nat) -> bool {
    s(t) != 3 && forall|u: nat| u < t ==> #[trigger] s(u) == 3
}

/// Whether the parties are those drawn in order from the stream of bit pairs by rejecting
/// `0b11`, each found within `usize::MAX` pairs of the previous one.
pub open spec fn draws_parties(s: spec_fn(nat) -> nat, ps: Seq<nat>) -> bool
    decreases ps.len(),
{
    if ps.len() == 0 {
        true
    } else {
        let f = first_valid_pair(s);
        &&& f < usize::MAX
        &&& s(f) != 3
        &&& ps[0] == s(f)
        &&& draws_parties(shifted(s, f + 1), ps.drop_first())
    }
}

/// The first valid pair of a stream is the valid pair with only `0b11` pairs before it.
pub proof fn lemma_first_valid_pair_unique(s: spec_fn(nat) -> nat, t: nat)
    requires
        s(t) != 3,
        forall|u: nat| u < t ==> #[trigger] s(u) == 3,
    ensures
        first_valid_pair(s) == t,
{
    assert(is_first_valid(s, t));
    let f = first_valid_pair(s);
    assert(is_first_valid(s, f));
    if f < t {
        assert(s(f) == 3);
    }
    if t < f {
        assert(s(t) == 3);
    }
}

/// A party produced by a challenge generator is the first valid pair of its stream, and the
/// stream that remains is the one after that pair.
pub proof fn lemma_generated_pair<R: RandomGenerator>(before: ChallengeGenerator<R>, p: Party, after: ChallengeGenerator<R>)
    requires
        before.pair(first_valid(before)) != 3,
        <ChallengeGenerator<R> as GeneratesRandom<Party>>::generates(before, p, after),
    ensures
        first_valid_pair(before.pairs()) == first_valid(before),
        p.spec_index() == before.pairs()(first_valid(before)),
        after.pairs() == shifted(before.pairs(), first_valid(before) + 1),
{
    lemma_first_valid(before);
    let f = first_valid(before);
    assert forall|u: nat| u < f implies #[trigger] before.pairs()(u) == 3 by {
        assert(before.pair(u) == 3);
    }
    lemma_first_valid_pair_unique(before.pairs(), f);
    assert(after.pairs() =~= shifted(before.pairs(), f + 1));
}


/// The stream of bit pairs yields exactly `n` parties within the bound: `n` are drawn, and no
/// further party is found within `usize::MAX` pairs after them.
pub open spec fn stops_after(s: spec_fn(nat) -> nat, n: nat) -> bool {
    exists|ps: Seq<nat>| ps.len() == n && #[trigger] draws_parties(s, ps) && forall|p: nat| !draws_parties(s, #[trigger] ps.push(p))
}

/// When all pairs within the bound are `0b11`, no party is drawn.
pub proof fn lemma_no_party(s: spec_fn(nat) -> nat, p: nat)
    requires
        forall|t: nat| t < usize::MAX ==> #[trigger] s(t) == 3,
    ensures
        !draws_parties(s, seq![p]),
{
    let f = first_valid_pair(s);
    if f < usize::MAX {
        assert(s(f) == 3);
    }
}

} // verus!
