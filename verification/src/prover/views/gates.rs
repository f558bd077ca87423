//! The multi-party computation of the non-linear gates on secret-shared words: each party holds
//! one XOR share of every word, and the view of party `p` depends only on its own shares, the
//! shares of party `p + 1` and their random tapes.
use crate::word::bitseq::{bits_val, carry_at, seq_and, seq_shl, seq_xor};
use crate::word::composite::CompositeWord;
use crate::word::word::Word;
use vstd::prelude::*;

verus! {

/// The XOR of three bit sequences.
pub open spec fn xor3(a: Seq<bool>, b: Seq<bool>, c: Seq<bool>) -> Seq<bool> {
    seq_xor(seq_xor(a, b), c)
}

/// The word whose shares are the three given composite words.
pub open spec fn reconstruct<W: Word, const N: usize>(s: [CompositeWord<W, N>; 3]) -> Seq<bool> {
    xor3(s[0].cbits(), s[1].cbits(), s[2].cbits())
}

/// The AND message of party `p`: the cross products of its shares and those of party `p + 1`,
/// masked by both parties' randomness.
pub open spec fn and_msg_bits<W: Word, const N: usize>(
    inls: [CompositeWord<W, N>; 3],
    inrs: [CompositeWord<W, N>; 3],
    rands: [CompositeWord<W, N>; 3],
    p: int,
) -> Seq<bool> {
    let q = (p + 1) % 3;
    seq_xor(
        seq_xor(
            seq_xor(
                seq_and(inls[p].cbits(), inrs[q].cbits()),
                seq_and(inls[q].cbits(), inrs[p].cbits()),
            ),
            rands[p].cbits(),
        ),
        rands[q].cbits(),
    )
}

/// The AND gate on shares: the AND messages and the output shares of the three parties.
pub fn and_shares<W: Word, const N: usize>(
    inls: [CompositeWord<W, N>; 3],
    inrs: [CompositeWord<W, N>; 3],
    rands: [CompositeWord<W, N>; 3],
) -> (r: ([CompositeWord<W, N>; 3], [CompositeWord<W, N>; 3]))
    ensures
        forall|p: int| 0 <= p < 3 ==> #[trigger] r.1[p].cbits() == and_msg_bits(inls, inrs, rands, p),
        forall|p: int|
            0 <= p < 3 ==> #[trigger] r.0[p].cbits() == seq_xor(
                seq_and(inls[p].cbits(), inrs[p].cbits()),
                r.1[p].cbits(),
            ),
{
    let z = CompositeWord::<W, N>::zero();
    let mut and_msgs = [z; 3];
    let mut outs = [z; 3];
    let mut p: usize = 0;
    while p < 3
        invariant
            p <= 3,
            forall|k: int| 0 <= k < p ==> #[trigger] and_msgs[k].cbits() == and_msg_bits(inls, inrs, rands, k),
            forall|k: int|
                0 <= k < p ==> #[trigger] outs[k].cbits() == seq_xor(
                    seq_and(inls[k].cbits(), inrs[k].cbits()),
                    and_msgs[k].cbits(),
                ),
        decreases 3 - p,
    {
        let next_p = (p + 1) % 3;
        let and_msg = inls[p].bitand(inrs[next_p]).bitxor(inls[next_p].bitand(inrs[p])).bitxor(
            rands[p],
        ).bitxor(rands[next_p]);
        and_msgs[p] = and_msg;
        outs[p] = inls[p].bitand(inrs[p]).bitxor(and_msg);
        p = p + 1;
    }
    (outs, and_msgs)
}

/// The output shares of the AND gate reconstruct the AND of the reconstructed inputs: the
/// randomness cancels out and the cross products complete the product.
pub proof fn lemma_and_shares_reconstruct<W: Word, const N: usize>(
    inls: [CompositeWord<W, N>; 3],
    inrs: [CompositeWord<W, N>; 3],
    rands: [CompositeWord<W, N>; 3],
    outs: [CompositeWord<W, N>; 3],
)
    requires
        forall|p: int|
            0 <= p < 3 ==> #[trigger] outs[p].cbits() == seq_xor(
                seq_and(inls[p].cbits(), inrs[p].cbits()),
                and_msg_bits(inls, inrs, rands, p),
            ),
    ensures
        reconstruct(outs) == seq_and(reconstruct(inls), reconstruct(inrs)),
{
    assert(outs[0].cbits() == seq_xor(
        seq_and(inls[0].cbits(), inrs[0].cbits()),
        and_msg_bits(inls, inrs, rands, 0),
    ));
    assert(outs[1].cbits() == seq_xor(
        seq_and(inls[1].cbits(), inrs[1].cbits()),
        and_msg_bits(inls, inrs, rands, 1),
    ));
    assert(outs[2].cbits() == seq_xor(
        seq_and(inls[2].cbits(), inrs[2].cbits()),
        and_msg_bits(inls, inrs, rands, 2),
    ));
    assert(reconstruct(outs) =~= seq_and(reconstruct(inls), reconstruct(inrs)));
}

/// The carry share of party `i` at bit position `t` in the bit-serial multi-party carry
/// computation with propagate shares `ps`, generate shares `gs`, random tapes `rs` and carry-in
/// `cin` (held by all three parties, so that its shares XOR to it).
pub open spec fn cshare<W: Word, const N: usize>(
    ps: [CompositeWord<W, N>; 3],
    gs: [CompositeWord<W, N>; 3],
    rs: [CompositeWord<W, N>; 3],
    cin: bool,
    t: nat,
    i: int,
) -> bool
    decreases t,
{
    if t == 0 {
        cin
    } else {
        let k = (t - 1) as nat;
        let q = (i + 1) % 3;
        let ci = cshare(ps, gs, rs, cin, k, i);
        let cq = cshare(ps, gs, rs, cin, k, q);
        let msg = (((ci && ps[q].cbits()[k as int]) != (cq && ps[i].cbits()[k as int])) != rs[i].cbits()[k as int])
            != rs[q].cbits()[k as int];
        ((ci && ps[i].cbits()[k as int]) != msg) != gs[i].cbits()[k as int]
    }
}

/// The AND message bit of party `i` at bit position `k` in the multi-party carry computation.
pub open spec fn cmsg<W: Word, const N: usize>(
    ps: [CompositeWord<W, N>; 3],
    gs: [CompositeWord<W, N>; 3],
    rs: [CompositeWord<W, N>; 3],
    cin: bool,
    k: nat,
    i: int,
) -> bool {
    let q = (i + 1) % 3;
    let ci = cshare(ps, gs, rs, cin, k, i);
    let cq = cshare(ps, gs, rs, cin, k, q);
    (((ci && ps[q].cbits()[k as int]) != (cq && ps[i].cbits()[k as int])) != rs[i].cbits()[k as int])
        != rs[q].cbits()[k as int]
}

/// The carry shares reconstruct the carries of the reconstructed propagate and generate bits.
pub proof fn lemma_carry_shares_reconstruct<W: Word, const N: usize>(
    ps: [CompositeWord<W, N>; 3],
    gs: [CompositeWord<W, N>; 3],
    rs: [CompositeWord<W, N>; 3],
    cin: bool,
    t: nat,
)
    requires
        t <= CompositeWord::<W, N>::spec_cwidth(),
    ensures
        ((cshare(ps, gs, rs, cin, t, 0) != cshare(ps, gs, rs, cin, t, 1)) != cshare(
            ps,
            gs,
            rs,
            cin,
            t,
            2,
        )) == carry_at(reconstruct(ps), reconstruct(gs), cin, t),
    decreases t,
{
    if t > 0 {
        let k = (t - 1) as nat;
        lemma_carry_shares_reconstruct(ps, gs, rs, cin, k);
        assert(reconstruct(ps)[k as int] == ((ps[0].cbits()[k as int] != ps[1].cbits()[k as int])
            != ps[2].cbits()[k as int]));
        assert(reconstruct(gs)[k as int] == ((gs[0].cbits()[k as int] != gs[1].cbits()[k as int])
            != gs[2].cbits()[k as int]));
        assert((0 + 1) % 3 == 1 && (1 + 1) % 3 == 2 && (2 + 1) % 3 == 0int);
    }
}

/// Bits of a composite word with a single bit possibly set, at position `t`.
pub open spec fn single_bit(cw: nat, t: int, b: bool) -> Seq<bool> {
    Seq::new(cw, |k: int| k == t && b)
}

/// The carry gate on shares: the carry shares and AND messages of the three parties, computed
/// bit by bit from the least significant bit.
pub fn carry_shares<W: Word, const N: usize>(
    ps: [CompositeWord<W, N>; 3],
    gs: [CompositeWord<W, N>; 3],
    carry_in: bool,
    rands: [CompositeWord<W, N>; 3],
) -> (r: ([CompositeWord<W, N>; 3], [CompositeWord<W, N>; 3]))
    requires
        N > 0,
        W::spec_width() * N <= usize::MAX,
    ensures
        forall|i: int, k: int|
            0 <= i < 3 && 0 <= k < CompositeWord::<W, N>::spec_cwidth() ==> #[trigger] r.0[i].cbits()[k]
                == cshare(ps, gs, rands, carry_in, k as nat, i),
        forall|i: int, k: int|
            0 <= i < 3 && 0 <= k < CompositeWord::<W, N>::spec_cwidth() ==> #[trigger] r.1[i].cbits()[k]
                == cmsg(ps, gs, rands, carry_in, k as nat, i),
{
    let cw = CompositeWord::<W, N>::width();
    let ghost cwn = cw as nat;
    let z = CompositeWord::<W, N>::zero();
    let mut and_msgs = [z; 3];
    let mut carries = [z; 3];
    let mut mask = CompositeWord::<W, N>::one();
    let c0 = CompositeWord::<W, N>::from_bool(carry_in);
    let mut cs = [c0; 3];
    proof {
        assert(mask.cbits() =~= single_bit(cwn, 0, true));
        assert(z.cbits() =~= Seq::new(cwn, |k: int| k < 0 && cshare(ps, gs, rands, carry_in, k as nat, 0)));
        assert(c0.cbits() =~= single_bit(cwn, 0, carry_in));
    }
    let mut t: usize = 0;
    while t < cw
        invariant
            N > 0,
            W::spec_width() * N <= usize::MAX,
            cw == CompositeWord::<W, N>::spec_cwidth(),
            cwn == cw,
            t <= cw,
            mask.cbits() == single_bit(cwn, t as int, true),
            forall|i: int|
                0 <= i < 3 ==> #[trigger] cs[i].cbits() == single_bit(
                    cwn,
                    t as int,
                    cshare(ps, gs, rands, carry_in, t as nat, i),
                ),
            forall|i: int|
                0 <= i < 3 ==> #[trigger] carries[i].cbits() == Seq::new(
                    cwn,
                    |k: int| k < t && cshare(ps, gs, rands, carry_in, k as nat, i),
                ),
            forall|i: int|
                0 <= i < 3 ==> #[trigger] and_msgs[i].cbits() == Seq::new(
                    cwn,
                    |k: int| k < t && cmsg(ps, gs, rands, carry_in, k as nat, i),
                ),
        decreases cw - t,
    {
        let mut i: usize = 0;
        while i < 3
            invariant
                t < cw,
                cw == CompositeWord::<W, N>::spec_cwidth(),
                cwn == cw,
                i <= 3,
                mask.cbits() == single_bit(cwn, t as int, true),
                forall|j: int|
                    0 <= j < 3 ==> #[trigger] cs[j].cbits() == single_bit(
                        cwn,
                        t as int,
                        cshare(ps, gs, rands, carry_in, t as nat, j),
                    ),
                forall|j: int|
                    0 <= j < 3 ==> #[trigger] carries[j].cbits() == Seq::new(
                        cwn,
                        |k: int|
                            (k < t || (k == t && j < i)) && cshare(ps, gs, rands, carry_in, k as nat, j),
                    ),
                forall|j: int|
                    0 <= j < 3 ==> #[trigger] and_msgs[j].cbits() == Seq::new(
                        cwn,
                        |k: int| (k < t || (k == t && j < i)) && cmsg(ps, gs, rands, carry_in, k as nat, j),
                    ),
            decreases 3 - i,
        {
            let next_i = (i + 1) % 3;
            let ghost ii = i as int;
            let ghost qq = next_i as int;
            let new_carry = carries[i].bitxor(cs[i]);
            let m1 = cs[i].bitand(ps[next_i]);
            let m2 = cs[next_i].bitand(ps[i]);
            let m3 = rands[i].bitand(mask);
            let m4 = rands[next_i].bitand(mask);
            let new_msg = and_msgs[i].bitxor(m1).bitxor(m2).bitxor(m3).bitxor(m4);
            proof {
                assert(new_carry.cbits() =~= Seq::new(
                    cwn,
                    |k: int| (k < t || k == t) && cshare(ps, gs, rands, carry_in, k as nat, ii),
                ));
                assert(new_msg.cbits() =~= Seq::new(
                    cwn,
                    |k: int| (k < t || k == t) && cmsg(ps, gs, rands, carry_in, k as nat, ii),
                ));
            }
            carries[i] = new_carry;
            and_msgs[i] = new_msg;
            i = i + 1;
        }
        let mut i: usize = 0;
        while i < 3
            invariant
                t < cw,
                N > 0,
                W::spec_width() * N <= usize::MAX,
                cw == CompositeWord::<W, N>::spec_cwidth(),
                cwn == cw,
                i <= 3,
                mask.cbits() == single_bit(cwn, t as int, true),
                forall|j: int|
                    0 <= j < 3 ==> #[trigger] cs[j].cbits() == if j < i {
                        single_bit(cwn, t + 1, cshare(ps, gs, rands, carry_in, (t + 1) as nat, j))
                    } else {
                        single_bit(cwn, t as int, cshare(ps, gs, rands, carry_in, t as nat, j))
                    },
                forall|j: int|
                    0 <= j < 3 ==> #[trigger] and_msgs[j].cbits() == Seq::new(
                        cwn,
                        |k: int| k <= t && cmsg(ps, gs, rands, carry_in, k as nat, j),
                    ),
            decreases 3 - i,
        {
            let ghost ii = i as int;
            let a = cs[i].bitand(ps[i]);
            let b = and_msgs[i].bitand(mask);
            let c = gs[i].bitand(mask);
            let pre = a.bitxor(b).bitxor(c);
            let shifted = pre.unbounded_shl(1);
            proof {
                assert(pre.cbits() =~= single_bit(
                    cwn,
                    t as int,
                    cshare(ps, gs, rands, carry_in, (t + 1) as nat, ii),
                ));
                assert(shifted.cbits() =~= single_bit(
                    cwn,
                    t + 1,
                    cshare(ps, gs, rands, carry_in, (t + 1) as nat, ii),
                ));
            }
            cs[i] = shifted;
            i = i + 1;
        }
        let new_mask = mask.unbounded_shl(1);
        proof {
            assert(new_mask.cbits() =~= single_bit(cwn, t + 1, true));
            assert forall|j: int| 0 <= j < 3 implies #[trigger] carries[j].cbits() == Seq::new(
                cwn,
                |k: int| k < t + 1 && cshare(ps, gs, rands, carry_in, k as nat, j),
            ) by {
                assert(carries[j].cbits() =~= Seq::new(
                    cwn,
                    |k: int| k < t + 1 && cshare(ps, gs, rands, carry_in, k as nat, j),
                ));
            }
            assert forall|j: int| 0 <= j < 3 implies #[trigger] and_msgs[j].cbits() == Seq::new(
                cwn,
                |k: int| k < t + 1 && cmsg(ps, gs, rands, carry_in, k as nat, j),
            ) by {
                assert(and_msgs[j].cbits() =~= Seq::new(
                    cwn,
                    |k: int| k < t + 1 && cmsg(ps, gs, rands, carry_in, k as nat, j),
                ));
            }
        }
        mask = new_mask;
        t = t + 1;
    }
    (carries, and_msgs)
}

/// The AND gate replayed by the two opened parties: the AND message of the first is computed
/// from both parties' shares and randomness, that of the second is given.
pub fn and_replay<W: Word, const N: usize>(
    inls: [CompositeWord<W, N>; 2],
    inrs: [CompositeWord<W, N>; 2],
    rands: [CompositeWord<W, N>; 2],
    msg_next: CompositeWord<W, N>,
) -> (r: ([CompositeWord<W, N>; 2], CompositeWord<W, N>))
    ensures
        r.1.cbits() == seq_xor(
            seq_xor(
                seq_xor(
                    seq_and(inls[0].cbits(), inrs[1].cbits()),
                    seq_and(inls[1].cbits(), inrs[0].cbits()),
                ),
                rands[0].cbits(),
            ),
            rands[1].cbits(),
        ),
        r.0[0].cbits() == seq_xor(seq_and(inls[0].cbits(), inrs[0].cbits()), r.1.cbits()),
        r.0[1].cbits() == seq_xor(seq_and(inls[1].cbits(), inrs[1].cbits()), msg_next.cbits()),
{
    let and_msg_0 = inls[0].bitand(inrs[1]).bitxor(inls[1].bitand(inrs[0])).bitxor(rands[0]).bitxor(
        rands[1],
    );
    let outs = [inls[0].bitand(inrs[0]).bitxor(and_msg_0), inls[1].bitand(inrs[1]).bitxor(msg_next)];
    (outs, and_msg_0)
}

/// Replaying an AND gate with the AND message of party `e + 1` reproduces the AND message of
/// party `e` and the output shares of parties `e` and `e + 1`.
pub proof fn lemma_and_replay<W: Word, const N: usize>(
    inls: [CompositeWord<W, N>; 3],
    inrs: [CompositeWord<W, N>; 3],
    rands: [CompositeWord<W, N>; 3],
    outs: [CompositeWord<W, N>; 3],
    msgs: [CompositeWord<W, N>; 3],
    e: int,
    inls2: [CompositeWord<W, N>; 2],
    inrs2: [CompositeWord<W, N>; 2],
    rands2: [CompositeWord<W, N>; 2],
    outs2: [CompositeWord<W, N>; 2],
    msg0: CompositeWord<W, N>,
)
    requires
        0 <= e < 3,
        forall|p: int| 0 <= p < 3 ==> #[trigger] msgs[p].cbits() == and_msg_bits(inls, inrs, rands, p),
        forall|p: int|
            0 <= p < 3 ==> #[trigger] outs[p].cbits() == seq_xor(
                seq_and(inls[p].cbits(), inrs[p].cbits()),
                msgs[p].cbits(),
            ),
        inls2[0] == inls[e],
        inls2[1] == inls[(e + 1) % 3],
        inrs2[0] == inrs[e],
        inrs2[1] == inrs[(e + 1) % 3],
        rands2[0] == rands[e],
        rands2[1] == rands[(e + 1) % 3],
        msg0.cbits() == seq_xor(
            seq_xor(
                seq_xor(
                    seq_and(inls2[0].cbits(), inrs2[1].cbits()),
                    seq_and(inls2[1].cbits(), inrs2[0].cbits()),
                ),
                rands2[0].cbits(),
            ),
            rands2[1].cbits(),
        ),
        outs2[0].cbits() == seq_xor(seq_and(inls2[0].cbits(), inrs2[0].cbits()), msg0.cbits()),
        outs2[1].cbits() == seq_xor(
            seq_and(inls2[1].cbits(), inrs2[1].cbits()),
            msgs[(e + 1) % 3].cbits(),
        ),
    ensures
        msg0.cbits() == msgs[e].cbits(),
        outs2[0].cbits() == outs[e].cbits(),
        outs2[1].cbits() == outs[(e + 1) % 3].cbits(),
{
    assert(msgs[e].cbits() == and_msg_bits(inls, inrs, rands, e));
    assert(outs[e].cbits() == seq_xor(seq_and(inls[e].cbits(), inrs[e].cbits()), msgs[e].cbits()));
    assert(outs[(e + 1) % 3].cbits() == seq_xor(
        seq_and(inls[(e + 1) % 3].cbits(), inrs[(e + 1) % 3].cbits()),
        msgs[(e + 1) % 3].cbits(),
    ));
}

/// The carry share of opened party `i` (0 for party `e`, 1 for party `e + 1`) at bit position
/// `t` when replaying the carry gate, given the AND message bits `m` of party `e + 1`.
pub open spec fn rshare<W: Word, const N: usize>(
    ps: [CompositeWord<W, N>; 2],
    gs: [CompositeWord<W, N>; 2],
    rs: [CompositeWord<W, N>; 2],
    m: Seq<bool>,
    cin: bool,
    t: nat,
    i: int,
) -> bool
    decreases t,
{
    if t == 0 {
        cin
    } else {
        let k = (t - 1) as nat;
        let c0 = rshare(ps, gs, rs, m, cin, k, 0);
        let c1 = rshare(ps, gs, rs, m, cin, k, 1);
        if i == 0 {
            let msg = (((c0 && ps[1].cbits()[k as int]) != (c1 && ps[0].cbits()[k as int]))
                != rs[0].cbits()[k as int]) != rs[1].cbits()[k as int];
            ((c0 && ps[0].cbits()[k as int]) != msg) != gs[0].cbits()[k as int]
        } else {
            ((c1 && ps[1].cbits()[k as int]) != m[k as int]) != gs[1].cbits()[k as int]
        }
    }
}

/// Replaying the carry gate with the AND message bits of party `e + 1` reproduces the carry
/// shares of parties `e` and `e + 1`.
pub proof fn lemma_carry_replay<W: Word, const N: usize>(
    ps: [CompositeWord<W, N>; 3],
    gs: [CompositeWord<W, N>; 3],
    rs: [CompositeWord<W, N>; 3],
    cin: bool,
    e: int,
    ps2: [CompositeWord<W, N>; 2],
    gs2: [CompositeWord<W, N>; 2],
    rs2: [CompositeWord<W, N>; 2],
    m: Seq<bool>,
    t: nat,
)
    requires
        0 <= e < 3,
        t <= CompositeWord::<W, N>::spec_cwidth(),
        m.len() == CompositeWord::<W, N>::spec_cwidth(),
        forall|k: int|
            0 <= k < CompositeWord::<W, N>::spec_cwidth() ==> #[trigger] m[k] == cmsg(
                ps,
                gs,
                rs,
                cin,
                k as nat,
                (e + 1) % 3,
            ),
        ps2[0] == ps[e],
        ps2[1] == ps[(e + 1) % 3],
        gs2[0] == gs[e],
        gs2[1] == gs[(e + 1) % 3],
        rs2[0] == rs[e],
        rs2[1] == rs[(e + 1) % 3],
    ensures
        rshare(ps2, gs2, rs2, m, cin, t, 0) == cshare(ps, gs, rs, cin, t, e),
        rshare(ps2, gs2, rs2, m, cin, t, 1) == cshare(ps, gs, rs, cin, t, (e + 1) % 3),
    decreases t,
{
    if t > 0 {
        let k = (t - 1) as nat;
        lemma_carry_replay(ps, gs, rs, cin, e, ps2, gs2, rs2, m, k);
        assert(m[k as int] == cmsg(ps, gs, rs, cin, k, (e + 1) % 3));
    }
}

/// The carry gate replayed by the two opened parties, bit by bit from the least significant
/// bit, with the AND message of the second party given.
pub fn carry_replay<W: Word, const N: usize>(
    ps: [CompositeWord<W, N>; 2],
    gs: [CompositeWord<W, N>; 2],
    carry_in: bool,
    rands: [CompositeWord<W, N>; 2],
    msg_next: CompositeWord<W, N>,
) -> (r: [CompositeWord<W, N>; 2])
    requires
        N > 0,
        W::spec_width() * N <= usize::MAX,
    ensures
        forall|i: int, k: int|
            0 <= i < 2 && 0 <= k < CompositeWord::<W, N>::spec_cwidth() ==> #[trigger] r[i].cbits()[k]
                == rshare(ps, gs, rands, msg_next.cbits(), carry_in, k as nat, i),
{
    let cw = CompositeWord::<W, N>::width();
    let ghost cwn = cw as nat;
    let ghost m = msg_next.cbits();
    let z = CompositeWord::<W, N>::zero();
    let mut and_msgs = [z, msg_next];
    let mut carries = [z; 2];
    let mut mask = CompositeWord::<W, N>::one();
    let c0 = CompositeWord::<W, N>::from_bool(carry_in);
    let mut cs = [c0; 2];
    proof {
        assert(mask.cbits() =~= single_bit(cwn, 0, true));
        assert(z.cbits() =~= Seq::new(cwn, |k: int| k < 0 && rshare(ps, gs, rands, m, carry_in, k as nat, 0)));
        assert(c0.cbits() =~= single_bit(cwn, 0, carry_in));
    }
    let mut t: usize = 0;
    while t < cw
        invariant
            N > 0,
            W::spec_width() * N <= usize::MAX,
            cw == CompositeWord::<W, N>::spec_cwidth(),
            cwn == cw,
            m == msg_next.cbits(),
            t <= cw,
            mask.cbits() == single_bit(cwn, t as int, true),
            and_msgs[1] == msg_next,
            forall|i: int|
                0 <= i < 2 ==> #[trigger] cs[i].cbits() == single_bit(
                    cwn,
                    t as int,
                    rshare(ps, gs, rands, m, carry_in, t as nat, i),
                ),
            forall|i: int|
                0 <= i < 2 ==> #[trigger] carries[i].cbits() == Seq::new(
                    cwn,
                    |k: int| k < t && rshare(ps, gs, rands, m, carry_in, k as nat, i),
                ),
            and_msgs[0].cbits() == Seq::new(
                cwn,
                |k: int|
                    k < t && {
                        let c0 = rshare(ps, gs, rands, m, carry_in, k as nat, 0);
                        let c1 = rshare(ps, gs, rands, m, carry_in, k as nat, 1);
                        (((c0 && ps[1].cbits()[k]) != (c1 && ps[0].cbits()[k])) != rands[0].cbits()[k])
                            != rands[1].cbits()[k]
                    },
            ),
        decreases cw - t,
    {
        let mut i: usize = 0;
        while i < 2
            invariant
                t < cw,
                cw == CompositeWord::<W, N>::spec_cwidth(),
                cwn == cw,
                m == msg_next.cbits(),
                i <= 2,
                mask.cbits() == single_bit(cwn, t as int, true),
                and_msgs[1] == msg_next,
                forall|j: int|
                    0 <= j < 2 ==> #[trigger] cs[j].cbits() == single_bit(
                        cwn,
                        t as int,
                        rshare(ps, gs, rands, m, carry_in, t as nat, j),
                    ),
                forall|j: int|
                    0 <= j < 2 ==> #[trigger] carries[j].cbits() == Seq::new(
                        cwn,
                        |k: int| (k < t || (k == t && j < i)) && rshare(ps, gs, rands, m, carry_in, k as nat, j),
                    ),
                and_msgs[0].cbits() == Seq::new(
                    cwn,
                    |k: int|
                        (k < t || (k == t && 0 < i)) && {
                            let c0 = rshare(ps, gs, rands, m, carry_in, k as nat, 0);
                            let c1 = rshare(ps, gs, rands, m, carry_in, k as nat, 1);
                            (((c0 && ps[1].cbits()[k]) != (c1 && ps[0].cbits()[k])) != rands[0].cbits()[k])
                                != rands[1].cbits()[k]
                        },
                ),
            decreases 2 - i,
        {
            let ghost ii = i as int;
            let new_carry = carries[i].bitxor(cs[i]);
            proof {
                assert(new_carry.cbits() =~= Seq::new(
                    cwn,
                    |k: int| (k < t || k == t) && rshare(ps, gs, rands, m, carry_in, k as nat, ii),
                ));
            }
            carries[i] = new_carry;
            if i == 0 {
                let next_i: usize = 1;
                let m1 = cs[i].bitand(ps[next_i]);
                let m2 = cs[next_i].bitand(ps[i]);
                let m3 = rands[i].bitand(mask);
                let m4 = rands[next_i].bitand(mask);
                let new_msg = and_msgs[i].bitxor(m1).bitxor(m2).bitxor(m3).bitxor(m4);
                proof {
                    assert(new_msg.cbits() =~= Seq::new(
                        cwn,
                        |k: int|
                            (k < t || (k == t && 0 < 1)) && {
                                let c0 = rshare(ps, gs, rands, m, carry_in, k as nat, 0);
                                let c1 = rshare(ps, gs, rands, m, carry_in, k as nat, 1);
                                (((c0 && ps[1].cbits()[k]) != (c1 && ps[0].cbits()[k]))
                                    != rands[0].cbits()[k]) != rands[1].cbits()[k]
                            },
                    ));
                }
                and_msgs[i] = new_msg;
            }
            i = i + 1;
        }
        let mut i: usize = 0;
        while i < 2
            invariant
                t < cw,
                N > 0,
                W::spec_width() * N <= usize::MAX,
                cw == CompositeWord::<W, N>::spec_cwidth(),
                cwn == cw,
                m == msg_next.cbits(),
                i <= 2,
                mask.cbits() == single_bit(cwn, t as int, true),
                and_msgs[1] == msg_next,
                forall|j: int|
                    0 <= j < 2 ==> #[trigger] cs[j].cbits() == if j < i {
                        single_bit(cwn, t + 1, rshare(ps, gs, rands, m, carry_in, (t + 1) as nat, j))
                    } else {
                        single_bit(cwn, t as int, rshare(ps, gs, rands, m, carry_in, t as nat, j))
                    },
                and_msgs[0].cbits() == Seq::new(
                    cwn,
                    |k: int|
                        k <= t && {
                            let c0 = rshare(ps, gs, rands, m, carry_in, k as nat, 0);
                            let c1 = rshare(ps, gs, rands, m, carry_in, k as nat, 1);
                            (((c0 && ps[1].cbits()[k]) != (c1 && ps[0].cbits()[k])) != rands[0].cbits()[k])
                                != rands[1].cbits()[k]
                        },
                ),
            decreases 2 - i,
        {
            let ghost ii = i as int;
            let a = cs[i].bitand(ps[i]);
            let b = and_msgs[i].bitand(mask);
            let c = gs[i].bitand(mask);
            let pre = a.bitxor(b).bitxor(c);
            let shifted = pre.unbounded_shl(1);
            proof {
                assert(pre.cbits() =~= single_bit(
                    cwn,
                    t as int,
                    rshare(ps, gs, rands, m, carry_in, (t + 1) as nat, ii),
                ));
                assert(shifted.cbits() =~= single_bit(
                    cwn,
                    t + 1,
                    rshare(ps, gs, rands, m, carry_in, (t + 1) as nat, ii),
                ));
            }
            cs[i] = shifted;
            i = i + 1;
        }
        let new_mask = mask.unbounded_shl(1);
        proof {
            assert(new_mask.cbits() =~= single_bit(cwn, t + 1, true));
            assert forall|j: int| 0 <= j < 2 implies #[trigger] carries[j].cbits() == Seq::new(
                cwn,
                |k: int| k < t + 1 && rshare(ps, gs, rands, m, carry_in, k as nat, j),
            ) by {
                assert(carries[j].cbits() =~= Seq::new(
                    cwn,
                    |k: int| k < t + 1 && rshare(ps, gs, rands, m, carry_in, k as nat, j),
                ));
            }
            assert(and_msgs[0].cbits() =~= Seq::new(
                cwn,
                |k: int|
                    k < t + 1 && {
                        let c0 = rshare(ps, gs, rands, m, carry_in, k as nat, 0);
                        let c1 = rshare(ps, gs, rands, m, carry_in, k as nat, 1);
                        (((c0 && ps[1].cbits()[k]) != (c1 && ps[0].cbits()[k])) != rands[0].cbits()[k])
                            != rands[1].cbits()[k]
                    },
            ));
        }
        mask = new_mask;
        t = t + 1;
    }
    carries
}

} // verus!
