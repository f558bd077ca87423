//! The views of the three parties: commitments and the data to open them.
use crate::crypto::hasher::Digest;
use crate::crypto::prg::Seed;
use crate::word::words::Words;
use vstd::prelude::*;

verus! {

/// Commitment to a view: the digest of the view and its output share.
pub struct ViewCommitment<D: Digest> {
    digest: D,
    output_share: Words,
}

impl<D: Digest> ViewCommitment<D> {
    /// The digest of the view.
    pub closed spec fn spec_digest(self) -> D {
        self.digest
    }

    /// The output share of the view.
    pub closed spec fn spec_output_share(self) -> Words {
        self.output_share
    }

    /// Creates a commitment from a digest and an output share.
    pub fn new(digest: D, output_share: Words) -> (r: Self)
        ensures
            r.spec_digest() == digest,
            r.spec_output_share() == output_share,
    {
        ViewCommitment { digest, output_share }
    }

    /// The digest of the view.
    pub fn digest(&self) -> (r: &D)
        ensures
            *r == self.spec_digest(),
    {
        &self.digest
    }

    /// The digest of the view, consuming the commitment.
    pub fn into_digest(self) -> (r: D)
        ensures
            r == self.spec_digest(),
    {
        self.digest
    }

    /// The output share of the view.
    pub fn output_share(&self) -> (r: &Words)
        ensures
            *r == self.spec_output_share(),
    {
        &self.output_share
    }
}

/// The bytes a commitment contributes to the challenge: its digest, then the serialisation of
/// its output share.
pub open spec fn commitment_bytes<D: Digest>(c: ViewCommitment<D>) -> Seq<u8> {
    c.spec_digest().bytes() + c.spec_output_share().spec_bytes()
}

/// The bytes the commitments of the three views of an iteration contribute to the challenge.
pub open spec fn commitments_bytes<D: Digest>(cs: [ViewCommitment<D>; 3]) -> Seq<u8> {
    commitment_bytes(cs[0]) + commitment_bytes(cs[1]) + commitment_bytes(cs[2])
}

/// Absorbs the commitments of the three views of an iteration into a challenge hasher.
pub fn ingest_commitments<H: crate::crypto::hasher::Hasher>(hasher: &mut H, commitments: &[ViewCommitment<H::Digest>; 3])
    ensures
        final(hasher).absorbed() == old(hasher).absorbed() + commitments_bytes(*commitments),
{
    let ghost a0 = hasher.absorbed();
    let mut k: usize = 0;
    while k < 3
        invariant
            k <= 3,
            hasher.absorbed() == a0 + if k == 0 {
                Seq::<u8>::empty()
            } else if k == 1 {
                commitment_bytes(commitments[0])
            } else if k == 2 {
                commitment_bytes(commitments[0]) + commitment_bytes(commitments[1])
            } else {
                commitments_bytes(*commitments)
            },
        decreases 3 - k,
    {
        let c = &commitments[k];
        let ghost before = hasher.absorbed();
        hasher.update(c.digest().as_slice());
        c.output_share().update_hasher(hasher);
        proof {
            assert(hasher.absorbed() =~= before + commitment_bytes(*c));
            if k == 0 {
                assert(hasher.absorbed() =~= a0 + commitment_bytes(commitments[0]));
            } else if k == 1 {
                assert(hasher.absorbed() =~= a0 + (commitment_bytes(commitments[0]) + commitment_bytes(commitments[1])));
            } else {
                assert(hasher.absorbed() =~= a0 + commitments_bytes(*commitments));
            }
        }
        k = k + 1;
    }
}

/// The data of a view triple: the seeds of the three parties, the input share of party 2,
/// the AND messages of the three parties and the commitments to the three views.
pub struct Views<D: Digest, S: Seed> {
    seeds: [S; 3],
    input_share_2: Words,
    and_msgs_0: Words,
    and_msgs_1: Words,
    and_msgs_2: Words,
    commitments: [ViewCommitment<D>; 3],
}

impl<D: Digest, S: Seed> Views<D, S> {
    /// The seeds of the three parties.
    pub closed spec fn spec_seeds(self) -> [S; 3] {
        self.seeds
    }

    /// The input share of party 2.
    pub closed spec fn spec_input_share_2(self) -> Words {
        self.input_share_2
    }

    /// The AND messages of party `p`.
    pub closed spec fn spec_and_msgs(self, p: nat) -> Words {
        if p == 0 {
            self.and_msgs_0
        } else if p == 1 {
            self.and_msgs_1
        } else {
            self.and_msgs_2
        }
    }

    /// The commitments to the three views.
    pub closed spec fn spec_commitments(self) -> [ViewCommitment<D>; 3] {
        self.commitments
    }

    /// Assembles view data; the output shares of the commitments have one shape, and so do the
    /// AND messages of the three parties.
    pub fn new(
        seeds: [S; 3],
        input_share_2: Words,
        and_msgs_0: Words,
        and_msgs_1: Words,
        and_msgs_2: Words,
        commitments: [ViewCommitment<D>; 3],
    ) -> (r: Self)
        requires
            commitments[0].spec_output_share().spec_shape() == commitments[1].spec_output_share().spec_shape(),
            commitments[1].spec_output_share().spec_shape() == commitments[2].spec_output_share().spec_shape(),
            and_msgs_0.spec_shape() == and_msgs_1.spec_shape(),
            and_msgs_1.spec_shape() == and_msgs_2.spec_shape(),
        ensures
            r.spec_seeds() == seeds,
            r.spec_input_share_2() == input_share_2,
            r.spec_and_msgs(0) == and_msgs_0,
            r.spec_and_msgs(1) == and_msgs_1,
            r.spec_and_msgs(2) == and_msgs_2,
            r.spec_commitments() == commitments,
    {
        Views { seeds, input_share_2, and_msgs_0, and_msgs_1, and_msgs_2, commitments }
    }

    /// The seeds of the three parties.
    pub fn seeds(&self) -> (r: &[S; 3])
        ensures
            *r == self.spec_seeds(),
    {
        &self.seeds
    }

    /// The input share of party 2.
    pub fn input_share_2(&self) -> (r: &Words)
        ensures
            *r == self.spec_input_share_2(),
    {
        &self.input_share_2
    }

    /// The AND messages of party `p`.
    pub fn and_msgs(&self, p: usize) -> (r: &Words)
        requires
            p < 3,
        ensures
            *r == self.spec_and_msgs(p as nat),
    {
        if p == 0 {
            &self.and_msgs_0
        } else if p == 1 {
            &self.and_msgs_1
        } else {
            &self.and_msgs_2
        }
    }

    /// The commitments to the three views.
    pub fn commitments(&self) -> (r: &[ViewCommitment<D>; 3])
        ensures
            *r == self.spec_commitments(),
    {
        &self.commitments
    }

    /// The parts of this view data: the seeds, the input share of party 2, the AND messages of
    /// parties 0, 1 and 2, and the commitments.
    pub fn into_parts(self) -> (r: ([S; 3], Words, Words, Words, Words, [ViewCommitment<D>; 3]))
        ensures
            r.0 == self.spec_seeds(),
            r.1 == self.spec_input_share_2(),
            r.2 == self.spec_and_msgs(0),
            r.3 == self.spec_and_msgs(1),
            r.4 == self.spec_and_msgs(2),
            r.5 == self.spec_commitments(),
    {
        (self.seeds, self.input_share_2, self.and_msgs_0, self.and_msgs_1, self.and_msgs_2, self.commitments)
    }
}

} // verus!
