//! Responses to challenges: the data that opens two of the three views of an iteration.
use crate::crypto::hasher::Digest;
use crate::crypto::prg::Seed;
use crate::prover::challenge::challenge::Party;
use crate::prover::views::view::Views;
use crate::word::words::Words;
use vstd::prelude::*;

verus! {

/// The serialisation of a response: the challenge party's index as a byte, the two seeds, the
/// input share of party 2 where present, the digest of the unopened view and the AND messages.
pub open spec fn response_bytes<D: Digest, S: Seed>(
    challenge: nat,
    seed_challenge_party: S,
    seed_next_party: S,
    input_share_2: Option<Words>,
    commitment_digest_unopened: D,
    and_msg_next_party: Words,
) -> Seq<u8> {
    seq![challenge as u8] + seed_challenge_party.bytes() + seed_next_party.bytes() + match input_share_2 {
        Some(w) => w.spec_bytes(),
        None => Seq::empty(),
    } + commitment_digest_unopened.bytes() + and_msg_next_party.spec_bytes()
}

/// Response to a challenge, containing the data that opens two views: for challenge party
/// `j`, the views of parties `j` and `j + 1` (mod 3); the challenge is the party.
pub struct Response<D: Digest, S: Seed> {
    challenge: Party,
    seed_challenge_party: S,
    seed_next_party: S,
    input_share_party_2: Option<Words>,
    and_msg_next_party: Words,
    commitment_digest_unopened: D,
}

impl<D: Digest, S: Seed> Response<D, S> {
    /// A response holds the input share of party 2 exactly when its challenge party is not
    /// party 0.
    #[verifier::type_invariant]
    spec fn inv(self) -> bool {
        (self.input_share_party_2 is Some) == (self.challenge.spec_index() != 0)
    }

    /// The response holds the input share of party 2 exactly when its challenge party is not
    /// party 0.
    pub(crate) fn lemma_input_share(&self)
        ensures
            (self.spec_input_share_2() is Some) == (self.spec_challenge().spec_index() != 0),
    {
        proof {
            use_type_invariant(self);
        }
    }

    /// The challenge party.
    pub closed spec fn spec_challenge(self) -> Party {
        self.challenge
    }

    /// The seed of the challenge party.
    pub closed spec fn spec_seed_challenge_party(self) -> S {
        self.seed_challenge_party
    }

    /// The seed of the party after the challenge party.
    pub closed spec fn spec_seed_next_party(self) -> S {
        self.seed_next_party
    }

    /// The input share of party 2, where the response holds it.
    pub closed spec fn spec_input_share_2(self) -> Option<Words> {
        self.input_share_party_2
    }

    /// The AND messages received by the second opened party from the unopened one.
    pub closed spec fn spec_and_msg_next_party(self) -> Words {
        self.and_msg_next_party
    }

    /// The commitment digest of the unopened view.
    pub closed spec fn spec_commitment_digest_unopened(self) -> D {
        self.commitment_digest_unopened
    }

    /// The serialisation of this response.
    pub open spec fn spec_bytes(self) -> Seq<u8> {
        response_bytes(
            self.spec_challenge().spec_index(),
            self.spec_seed_challenge_party(),
            self.spec_seed_next_party(),
            self.spec_input_share_2(),
            self.spec_commitment_digest_unopened(),
            self.spec_and_msg_next_party(),
        )
    }

    /// A response for challenge party 0: it opens the views of parties 0 and 1.
    pub fn new_0(seed_0: S, seed_1: S, commitment_digest_2: D, and_msg_1: Words) -> (r: Self)
        ensures
            r.spec_challenge().spec_index() == 0,
            r.spec_seed_challenge_party() == seed_0,
            r.spec_seed_next_party() == seed_1,
            r.spec_commitment_digest_unopened() == commitment_digest_2,
            r.spec_and_msg_next_party() == and_msg_1,
            r.spec_input_share_2() == None::<Words>,
    {
        Response {
            challenge: Party::from_index(0),
            seed_challenge_party: seed_0,
            seed_next_party: seed_1,
            commitment_digest_unopened: commitment_digest_2,
            and_msg_next_party: and_msg_1,
            input_share_party_2: None,
        }
    }

    /// A response for challenge party 1: it opens the views of parties 1 and 2.
    pub fn new_1(commitment_digest_0: D, seed_1: S, seed_2: S, and_msg_2: Words, input_share_2: Words) -> (r: Self)
        ensures
            r.spec_challenge().spec_index() == 1,
            r.spec_seed_challenge_party() == seed_1,
            r.spec_seed_next_party() == seed_2,
            r.spec_commitment_digest_unopened() == commitment_digest_0,
            r.spec_and_msg_next_party() == and_msg_2,
            r.spec_input_share_2() == Some(input_share_2),
    {
        Response {
            challenge: Party::from_index(1),
            commitment_digest_unopened: commitment_digest_0,
            seed_challenge_party: seed_1,
            seed_next_party: seed_2,
            and_msg_next_party: and_msg_2,
            input_share_party_2: Some(input_share_2),
        }
    }

    /// A response for challenge party 2: it opens the views of parties 2 and 0.
    pub fn new_2(seed_0: S, commitment_digest_1: D, seed_2: S, and_msg_3: Words, input_share_2: Words) -> (r: Self)
        ensures
            r.spec_challenge().spec_index() == 2,
            r.spec_seed_challenge_party() == seed_2,
            r.spec_seed_next_party() == seed_0,
            r.spec_commitment_digest_unopened() == commitment_digest_1,
            r.spec_and_msg_next_party() == and_msg_3,
            r.spec_input_share_2() == Some(input_share_2),
    {
        Response {
            challenge: Party::from_index(2),
            seed_next_party: seed_0,
            commitment_digest_unopened: commitment_digest_1,
            seed_challenge_party: seed_2,
            and_msg_next_party: and_msg_3,
            input_share_party_2: Some(input_share_2),
        }
    }

    /// The challenge party.
    pub fn challenge(&self) -> (r: Party)
        ensures
            r == self.spec_challenge(),
    {
        self.challenge
    }

    /// The seeds of the opened views: those of the challenge party and of the next party.
    pub fn seeds(&self) -> (r: (&S, &S))
        ensures
            *r.0 == self.spec_seed_challenge_party(),
            *r.1 == self.spec_seed_next_party(),
    {
        (&self.seed_challenge_party, &self.seed_next_party)
    }

    /// The input share of party 2, where the response holds it.
    pub fn input_share_2(&self) -> (r: Option<&Words>)
        ensures
            match self.spec_input_share_2() {
                Some(w) => r == Some(&w),
                None => r is None,
            },
    {
        match &self.input_share_party_2 {
            Some(w) => Some(w),
            None => None,
        }
    }

    /// The commitment digest of the unopened view, that of party `j + 2` (mod 3) for
    /// challenge party `j`.
    pub fn commitment_digest_unopened(&self) -> (r: &D)
        ensures
            *r == self.spec_commitment_digest_unopened(),
    {
        &self.commitment_digest_unopened
    }

    /// The AND messages received by party `j + 1` from party `j + 2` (mod 3), for challenge
    /// party `j`.
    pub fn and_msg_next_party(&self) -> (r: &Words)
        ensures
            *r == self.spec_and_msg_next_party(),
    {
        &self.and_msg_next_party
    }

    /// The response to the given challenge built from view data, which is consumed.
    pub fn from_views(view_data: Views<D, S>, challenge: Party) -> (r: Self)
        ensures
            responds(r, view_data, challenge),
    {
        view_data.into_response(challenge)
    }

    /// Appends the serialisation of this response to the given bytes.
    pub fn append_bytes(&self, bytes: &mut Vec<u8>)
        ensures
            final(bytes)@ == old(bytes)@ + self.spec_bytes(),
    {
        let ghost b0 = bytes@;
        let c = self.challenge.index();
        bytes.push(c as u8);
        bytes.extend_from_slice(self.seed_challenge_party.as_slice());
        bytes.extend_from_slice(self.seed_next_party.as_slice());
        let ghost b1 = bytes@;
        proof {
            assert(b1 =~= b0 + seq![c as u8] + self.seed_challenge_party.bytes() + self.seed_next_party.bytes());
        }
        match &self.input_share_party_2 {
            Some(w) => w.append_bytes(bytes),
            None => {},
        }
        let ghost b2 = bytes@;
        bytes.extend_from_slice(self.commitment_digest_unopened.as_slice());
        self.and_msg_next_party.append_bytes(bytes);
        proof {
            let mid = match self.spec_input_share_2() {
                Some(w) => w.spec_bytes(),
                None => Seq::<u8>::empty(),
            };
            assert(b2 =~= b1 + mid);
            assert(bytes@ =~= b0 + self.spec_bytes());
        }
    }

    /// The serialisation of this response.
    pub fn as_bytes(&self) -> (r: Vec<u8>)
        ensures
            r@ == self.spec_bytes(),
    {
        let mut bytes: Vec<u8> = Vec::new();
        self.append_bytes(&mut bytes);
        proof {
            assert(bytes@ =~= self.spec_bytes());
        }
        bytes
    }
}

/// The response `r` answers challenge party `j` from the view data `v`: it holds the seeds of
/// parties `j` and `j + 1`, the digest of the view of party `j + 2`, the AND messages of party
/// `j + 1`, and the input share of party 2 unless `j` is 0 (indices mod 3).
pub open spec fn responds<D: Digest, S: Seed>(r: Response<D, S>, v: Views<D, S>, challenge: Party) -> bool {
    let j = challenge.spec_index();
    let q = (j + 1) % 3;
    let u = (j + 2) % 3;
    &&& r.spec_challenge() == challenge
    &&& r.spec_seed_challenge_party() == v.spec_seeds()[j as int]
    &&& r.spec_seed_next_party() == v.spec_seeds()[q as int]
    &&& r.spec_input_share_2() == if j == 0 { None } else { Some(v.spec_input_share_2()) }
    &&& r.spec_and_msg_next_party() == v.spec_and_msgs(q as nat)
    &&& r.spec_commitment_digest_unopened() == v.spec_commitments()[u as int].spec_digest()
}

impl<D: Digest, S: Seed> Views<D, S> {
    /// Consumes this view data into the response to the given challenge.
    pub fn into_response(self, challenge: Party) -> (r: Response<D, S>)
        ensures
            responds(r, self, challenge),
    {
        let ghost v = self;
        let (seeds, input_share_2, and_msgs_0, and_msgs_1, and_msgs_2, commitments) = self.into_parts();
        let j = challenge.index();
        let q = if j == 2 { 0 } else { j + 1 };
        let u = if j == 0 { 2 } else { j - 1 };
        let seed_j = seeds[j].duplicate();
        let seed_q = seeds[q].duplicate();
        let digest_u = commitments[u].digest().duplicate();
        proof {
            S::lemma_bytes_injective(seed_j, seeds[j as int]);
            S::lemma_bytes_injective(seed_q, seeds[q as int]);
            D::lemma_bytes_injective(digest_u, commitments[u as int].spec_digest());
        }
        if j == 0 {
            Response {
                challenge,
                seed_challenge_party: seed_j,
                seed_next_party: seed_q,
                input_share_party_2: None,
                and_msg_next_party: and_msgs_1,
                commitment_digest_unopened: digest_u,
            }
        } else if j == 1 {
            Response {
                challenge,
                seed_challenge_party: seed_j,
                seed_next_party: seed_q,
                input_share_party_2: Some(input_share_2),
                and_msg_next_party: and_msgs_2,
                commitment_digest_unopened: digest_u,
            }
        } else {
            Response {
                challenge,
                seed_challenge_party: seed_j,
                seed_next_party: seed_q,
                input_share_party_2: Some(input_share_2),
                and_msg_next_party: and_msgs_0,
                commitment_digest_unopened: digest_u,
            }
        }
    }
}

/// The serialisation of a response, read from its start: the index of the challenge party as
/// one byte, the bytes of the seed of the challenge party, the bytes of the seed of the next
/// party, then, where the response holds the input share of party 2 (for challenge parties 1
/// and 2), the serialisation of that share; it ends with the digest of the unopened view
/// followed by the serialisation of the AND messages.
pub proof fn lemma_response_bytes_layout<D: Digest, S: Seed>(r: Response<D, S>)
    ensures
        r.spec_bytes()[0] == r.spec_challenge().spec_index() as u8,
        r.spec_bytes().subrange((1) as int, (1 + r.spec_seed_challenge_party().bytes().len()) as int) == r.spec_seed_challenge_party().bytes(),
        r.spec_bytes().subrange((1 + r.spec_seed_challenge_party().bytes().len()) as int, (1 + r.spec_seed_challenge_party().bytes().len() + r.spec_seed_next_party().bytes().len()) as int) == r.spec_seed_next_party().bytes(),
        r.spec_bytes().subrange((r.spec_bytes().len() - r.spec_and_msg_next_party().spec_bytes().len()) as int, (r.spec_bytes().len() as int) as int) == r.spec_and_msg_next_party().spec_bytes(),
        r.spec_bytes().subrange((r.spec_bytes().len() - r.spec_and_msg_next_party().spec_bytes().len() - r.spec_commitment_digest_unopened().bytes().len()) as int, (r.spec_bytes().len() - r.spec_and_msg_next_party().spec_bytes().len()) as int) == r.spec_commitment_digest_unopened().bytes(),
        r.spec_input_share_2() is None ==> r.spec_bytes().len() == 1 + r.spec_seed_challenge_party().bytes().len()
            + r.spec_seed_next_party().bytes().len() + r.spec_commitment_digest_unopened().bytes().len()
            + r.spec_and_msg_next_party().spec_bytes().len(),
        r.spec_input_share_2() matches Some(w) ==> {
            &&& r.spec_bytes().len() == 1 + r.spec_seed_challenge_party().bytes().len() + r.spec_seed_next_party().bytes().len()
                + w.spec_bytes().len() + r.spec_commitment_digest_unopened().bytes().len()
                + r.spec_and_msg_next_party().spec_bytes().len()
            &&& r.spec_bytes().subrange((1 + r.spec_seed_challenge_party().bytes().len() + r.spec_seed_next_party().bytes().len()) as int, (1 + r.spec_seed_challenge_party().bytes().len() + r.spec_seed_next_party().bytes().len() + w.spec_bytes().len()) as int) == w.spec_bytes()
        },
{
    let b = r.spec_bytes();
    let c = seq![r.spec_challenge().spec_index() as u8];
    let s1 = r.spec_seed_challenge_party().bytes();
    let s2 = r.spec_seed_next_party().bytes();
    let d = r.spec_commitment_digest_unopened().bytes();
    let m = r.spec_and_msg_next_party().spec_bytes();
    let i = match r.spec_input_share_2() {
        Some(w) => w.spec_bytes(),
        None => Seq::<u8>::empty(),
    };
    assert(b == c + s1 + s2 + i + d + m);
    assert(b.subrange((1) as int, (1 + s1.len()) as int) =~= s1);
    assert(b.subrange((1 + s1.len()) as int, (1 + s1.len() + s2.len()) as int) =~= s2);
    assert(b.subrange((b.len() - m.len()) as int, (b.len() as int) as int) =~= m);
    assert(b.subrange((b.len() - m.len() - d.len()) as int, (b.len() - m.len()) as int) =~= d);
    assert(b.subrange((1 + s1.len() + s2.len()) as int, (1 + s1.len() + s2.len() + i.len()) as int) =~= i);
}

/// Two responses that agree on everything but their input shares of party 2, whose
/// serialisations differ, serialise differently.
pub proof fn lemma_response_bytes_input_share<D: Digest, S: Seed>(r1: Response<D, S>, r2: Response<D, S>, w1: Words, w2: Words)
    requires
        r1.spec_challenge() == r2.spec_challenge(),
        r1.spec_seed_challenge_party() == r2.spec_seed_challenge_party(),
        r1.spec_seed_next_party() == r2.spec_seed_next_party(),
        r1.spec_commitment_digest_unopened() == r2.spec_commitment_digest_unopened(),
        r1.spec_and_msg_next_party() == r2.spec_and_msg_next_party(),
        r1.spec_input_share_2() == Some(w1),
        r2.spec_input_share_2() == Some(w2),
        w1.spec_bytes() != w2.spec_bytes(),
    ensures
        r1.spec_bytes() != r2.spec_bytes(),
{
    lemma_response_bytes_layout(r1);
    lemma_response_bytes_layout(r2);
}

} // verus!
