//! Mathematical model of fixed-width words as little-endian bit sequences.
use vstd::arithmetic::power2::*;
use vstd::prelude::*;

verus! {

/// 0 or 1 for a boolean.
pub open spec fn bool_nat(b: bool) -> nat {
    if b {
        1
    } else {
        0
    }
}

/// Numeric value of a little-endian bit sequence.
pub open spec fn bits_val(s: Seq<bool>) -> nat
    decreases s.len(),
{
    if s.len() == 0 {
        0
    } else {
        bits_val(s.drop_last()) + bool_nat(s.last()) * pow2((s.len() - 1) as nat)
    }
}

/// Pointwise exclusive or.
pub open spec fn seq_xor(a: Seq<bool>, b: Seq<bool>) -> Seq<bool> {
    Seq::new(a.len(), |i: int| a[i] != b[i])
}

/// Pointwise conjunction.
pub open spec fn seq_and(a: Seq<bool>, b: Seq<bool>) -> Seq<bool> {
    Seq::new(a.len(), |i: int| a[i] && b[i])
}

/// Pointwise disjunction.
pub open spec fn seq_or(a: Seq<bool>, b: Seq<bool>) -> Seq<bool> {
    Seq::new(a.len(), |i: int| a[i] || b[i])
}

/// Pointwise negation.
pub open spec fn seq_not(a: Seq<bool>) -> Seq<bool> {
    Seq::new(a.len(), |i: int| !a[i])
}

/// The bit sequence of `n` zero bits.
pub open spec fn seq_zeros(n: nat) -> Seq<bool> {
    Seq::new(n, |i: int| false)
}

/// Left shift of a bit sequence by `s` positions, keeping its length.
pub open spec fn seq_shl(a: Seq<bool>, s: int) -> Seq<bool> {
    Seq::new(a.len(), |i: int| i >= s && a[i - s])
}

/// Right shift of a bit sequence by `s` positions, keeping its length.
pub open spec fn seq_shr(a: Seq<bool>, s: int) -> Seq<bool> {
    Seq::new(a.len(), |i: int| i + s < a.len() && a[i + s])
}

/// Left rotation of a non-empty bit sequence by `s` positions.
pub open spec fn seq_rotl(a: Seq<bool>, s: int) -> Seq<bool> {
    Seq::new(a.len(), |i: int| a[(i - s) % (a.len() as int)])
}

/// Right rotation of a non-empty bit sequence by `s` positions.
pub open spec fn seq_rotr(a: Seq<bool>, s: int) -> Seq<bool> {
    Seq::new(a.len(), |i: int| a[(i + s) % (a.len() as int)])
}

/// Byte reversal of a bit sequence whose length is a multiple of 8: bit `i` of the result is
/// bit `i % 8` of the byte at the mirrored position of byte `i / 8`.
pub open spec fn seq_swap_bytes(a: Seq<bool>) -> Seq<bool> {
    Seq::new(a.len(), |i: int| a[8 * ((a.len() as int) / 8 - 1 - i / 8) + i % 8])
}

/// The position that [seq_swap_bytes] reads for position `i` is in range.
pub proof fn lemma_swap_bytes_index(i: int, n: int)
    requires
        n % 8 == 0,
        0 <= i < n,
    ensures
        0 <= 8 * (n / 8 - 1 - i / 8) + i % 8 < n,
{
    vstd::arithmetic::div_mod::lemma_fundamental_div_mod(n, 8);
    vstd::arithmetic::div_mod::lemma_fundamental_div_mod(i, 8);
    let q = i / 8;
    let m = n / 8;
    assert(q < m) by (nonlinear_arith)
        requires
            n == 8 * m,
            i == 8 * q + i % 8,
            0 <= i % 8,
            i < n,
    ;
}

/// The carry entering bit position `k` of a ripple-carry chain with propagate bits `p`,
/// generate bits `g` and initial carry `cin`.
pub open spec fn carry_at(p: Seq<bool>, g: Seq<bool>, cin: bool, k: nat) -> bool
    decreases k,
{
    if k == 0 {
        cin
    } else {
        (carry_at(p, g, cin, (k - 1) as nat) && p[k - 1]) != g[k - 1]
    }
}

/// The carries entering the first `n` bit positions.
pub open spec fn carries(p: Seq<bool>, g: Seq<bool>, cin: bool, n: nat) -> Seq<bool> {
    Seq::new(n, |i: int| carry_at(p, g, cin, i as nat))
}

/// The bit sequence of the sum of two bit sequences and a carry, truncated to their length.
pub open spec fn seq_add(a: Seq<bool>, b: Seq<bool>, cin: bool) -> Seq<bool> {
    let p = seq_xor(a, b);
    seq_xor(p, carries(p, seq_and(a, b), cin, a.len()))
}

/// Carry out of the sum of two bit sequences and a carry.
pub open spec fn seq_add_carry(a: Seq<bool>, b: Seq<bool>, cin: bool) -> bool {
    carry_at(seq_xor(a, b), seq_and(a, b), cin, a.len())
}

pub proof fn lemma_pow2_succ(k: nat)
    ensures
        pow2(k + 1) == 2 * pow2(k),
        pow2(k) > 0,
{
    lemma_pow2_unfold(k + 1);
    lemma_pow2_pos(k);
}

/// The value of the first `k + 1` bits extends the value of the first `k` bits.
pub proof fn lemma_bits_val_prefix(s: Seq<bool>, k: int)
    requires
        0 <= k < s.len(),
    ensures
        bits_val(s.subrange(0, k + 1)) == bits_val(s.subrange(0, k)) + bool_nat(s[k]) * pow2(
            k as nat,
        ),
{
    assert(s.subrange(0, k + 1).drop_last() =~= s.subrange(0, k));
}

/// Bit sequences of a given length have values below two to that length.
pub proof fn lemma_bits_val_bound(s: Seq<bool>)
    ensures
        bits_val(s) < pow2(s.len()),
    decreases s.len(),
{
    if s.len() == 0 {
        lemma2_to64();
    } else {
        lemma_bits_val_bound(s.drop_last());
        lemma_pow2_succ((s.len() - 1) as nat);
    }
}

/// The value only depends on the bits.
pub proof fn lemma_bits_val_ext(a: Seq<bool>, b: Seq<bool>)
    requires
        a.len() == b.len(),
        forall|i: int| 0 <= i < a.len() ==> a[i] == b[i],
    ensures
        bits_val(a) == bits_val(b),
{
    assert(a =~= b);
}

/// Distinct bit sequences of the same length have distinct values.
pub proof fn lemma_bits_val_injective(a: Seq<bool>, b: Seq<bool>)
    requires
        a.len() == b.len(),
        bits_val(a) == bits_val(b),
    ensures
        a =~= b,
    decreases a.len(),
{
    if a.len() > 0 {
        let n = (a.len() - 1) as nat;
        lemma_bits_val_bound(a.drop_last());
        lemma_bits_val_bound(b.drop_last());
        lemma_pow2_pos(n);
        if a.last() != b.last() {
            assert(false);
        }
        lemma_bits_val_injective(a.drop_last(), b.drop_last());
        assert forall|i: int| 0 <= i < a.len() implies a[i] == b[i] by {
            if i < n {
                assert(a.drop_last()[i] == b.drop_last()[i]);
            }
        }
    }
}

/// All-zero sequences have value zero.
pub proof fn lemma_bits_val_zeros(n: nat)
    ensures
        bits_val(seq_zeros(n)) == 0,
    decreases n,
{
    if n > 0 {
        assert(seq_zeros(n).drop_last() =~= seq_zeros((n - 1) as nat));
        lemma_bits_val_zeros((n - 1) as nat);
    }
}

/// A sequence whose only set bit is the lowest one has value one.
pub proof fn lemma_bits_val_one(s: Seq<bool>)
    requires
        s.len() > 0,
        s[0],
        forall|i: int| 0 < i < s.len() ==> !s[i],
    ensures
        bits_val(s) == 1,
    decreases s.len(),
{
    if s.len() == 1 {
        assert(s.drop_last().len() == 0);
        assert(bits_val(s.drop_last()) == 0);
        lemma2_to64();
    } else {
        assert(!s.last());
        lemma_bits_val_one(s.drop_last());
    }
}

/// Complementing every bit maps a value `v` to `2^n - 1 - v`.
pub proof fn lemma_bits_val_not(s: Seq<bool>)
    ensures
        bits_val(seq_not(s)) + bits_val(s) + 1 == pow2(s.len()),
    decreases s.len(),
{
    if s.len() == 0 {
        lemma2_to64();
    } else {
        let n = (s.len() - 1) as nat;
        assert(seq_not(s).drop_last() =~= seq_not(s.drop_last()));
        lemma_bits_val_not(s.drop_last());
        lemma_pow2_succ(n);
    }
}

/// The carry only depends on the bits below its position.
pub proof fn lemma_carry_at_congruent(
    p: Seq<bool>,
    g: Seq<bool>,
    p2: Seq<bool>,
    g2: Seq<bool>,
    cin: bool,
    k: nat,
)
    requires
        forall|j: int| 0 <= j < k ==> p[j] == p2[j] && g[j] == g2[j],
    ensures
        carry_at(p, g, cin, k) == carry_at(p2, g2, cin, k),
    decreases k,
{
    if k > 0 {
        lemma_carry_at_congruent(p, g, p2, g2, cin, (k - 1) as nat);
    }
}

/// A carry chain over bits `[off, off + k)` continues the chain started at position zero.
pub proof fn lemma_carry_at_split(
    p: Seq<bool>,
    g: Seq<bool>,
    cin: bool,
    off: nat,
    p2: Seq<bool>,
    g2: Seq<bool>,
    k: nat,
)
    requires
        forall|j: int| 0 <= j < k ==> p2[j] == p[off + j] && g2[j] == g[off + j],
    ensures
        carry_at(p2, g2, carry_at(p, g, cin, off), k) == carry_at(p, g, cin, off + k),
    decreases k,
{
    if k > 0 {
        lemma_carry_at_split(p, g, cin, off, p2, g2, (k - 1) as nat);
        assert((off + k - 1) as nat == off + (k - 1) as nat);
    }
}

/// Correctness of the ripple-carry adder on the first `k` bits.
#[verifier::spinoff_prover]
pub proof fn lemma_adder_prefix(a: Seq<bool>, b: Seq<bool>, cin: bool, k: nat)
    requires
        a.len() == b.len(),
        k <= a.len(),
    ensures
        bits_val(seq_add(a, b, cin).subrange(0, k as int)) + bool_nat(
            carry_at(seq_xor(a, b), seq_and(a, b), cin, k),
        ) * pow2(k) == bits_val(a.subrange(0, k as int)) + bits_val(b.subrange(0, k as int))
            + bool_nat(cin),
    decreases k,
{
    let s = seq_add(a, b, cin);
    if k == 0 {
        assert(s.subrange(0, 0) =~= Seq::<bool>::empty());
        assert(a.subrange(0, 0) =~= Seq::<bool>::empty());
        assert(b.subrange(0, 0) =~= Seq::<bool>::empty());
        lemma2_to64();
    } else {
        let j = (k - 1) as nat;
        lemma_adder_prefix(a, b, cin, j);
        lemma_bits_val_prefix(s, j as int);
        lemma_bits_val_prefix(a, j as int);
        lemma_bits_val_prefix(b, j as int);
        lemma_pow2_succ(j);
        let c = carry_at(seq_xor(a, b), seq_and(a, b), cin, j);
        assert(s[j as int] == ((a[j as int] != b[j as int]) != c));
        let pw = pow2(j);
        let ck = carry_at(seq_xor(a, b), seq_and(a, b), cin, k);
        assert(ck == ((c && seq_xor(a, b)[j as int]) != seq_and(a, b)[j as int]));
        assert(bool_nat(s[j as int]) + 2 * bool_nat(ck) == bool_nat(a[j as int]) + bool_nat(
            b[j as int],
        ) + bool_nat(c));
        assert(bool_nat(s[j as int]) * pw + bool_nat(
            carry_at(seq_xor(a, b), seq_and(a, b), cin, k),
        ) * (2 * pw) == bool_nat(a[j as int]) * pw + bool_nat(b[j as int]) * pw + bool_nat(c)
            * pw) by (nonlinear_arith)
            requires
                bool_nat(s[j as int]) + 2 * bool_nat(
                    carry_at(seq_xor(a, b), seq_and(a, b), cin, k),
                ) == bool_nat(a[j as int]) + bool_nat(b[j as int]) + bool_nat(c),
        ;
    }
}

/// Correctness of the ripple-carry adder: sum bits plus carry-out equals the sum of the values.
pub proof fn lemma_adder(a: Seq<bool>, b: Seq<bool>, cin: bool)
    requires
        a.len() == b.len(),
    ensures
        bits_val(seq_add(a, b, cin)) + bool_nat(seq_add_carry(a, b, cin)) * pow2(a.len())
            == bits_val(a) + bits_val(b) + bool_nat(cin),
        bits_val(seq_add(a, b, cin)) == (bits_val(a) + bits_val(b) + bool_nat(cin)) % pow2(
            a.len(),
        ),
        seq_add_carry(a, b, cin) == (bits_val(a) + bits_val(b) + bool_nat(cin) >= pow2(a.len())),
{
    let n = a.len();
    lemma_adder_prefix(a, b, cin, n);
    let s = seq_add(a, b, cin);
    assert(s.subrange(0, n as int) =~= s);
    assert(a.subrange(0, n as int) =~= a);
    assert(b.subrange(0, n as int) =~= b);
    lemma_bits_val_bound(s);
    let v = bits_val(s);
    let t = bits_val(a) + bits_val(b) + bool_nat(cin);
    let co = bool_nat(seq_add_carry(a, b, cin));
    lemma_pow2_pos(n);
    if co == 1 {
        assert(t >= pow2(n));
    } else {
        assert(t < pow2(n));
    }
    vstd::arithmetic::div_mod::lemma_fundamental_div_mod_converse(
        t as int,
        pow2(n) as int,
        co as int,
        v as int,
    );
}

} // verus!

verus! {

/// The little-endian bits of a natural number, truncated to `n` bits.
pub open spec fn nat_bits(v: nat, n: nat) -> Seq<bool> {
    Seq::new(n, |i: int| (v / pow2(i as nat)) % 2 == 1)
}

/// Least-significant-bit-first decomposition of the value of a bit sequence.
pub proof fn lemma_bits_val_lsb(s: Seq<bool>)
    requires
        s.len() > 0,
    ensures
        bits_val(s) == bool_nat(s[0]) + 2 * bits_val(s.drop_first()),
    decreases s.len(),
{
    if s.len() == 1 {
        assert(s.drop_first().len() == 0);
        assert(s.drop_last().len() == 0);
        assert(bits_val(s.drop_first()) == 0);
        assert(bits_val(s.drop_last()) == 0);
        lemma2_to64();
        assert(bits_val(s) == bool_nat(s.last()) * pow2(0));
    } else {
        let n = (s.len() - 1) as nat;
        let d = s.drop_last();
        lemma_bits_val_lsb(d);
        assert(d[0] == s[0]);
        assert(bits_val(s) == bits_val(d) + bool_nat(s.last()) * pow2(n));
        assert(bits_val(s.drop_first()) == bits_val(s.drop_first().drop_last()) + bool_nat(
            s.drop_first().last(),
        ) * pow2((n - 1) as nat));
        assert(s.drop_last().drop_first() =~= s.drop_first().drop_last());
        assert(s.drop_first().last() == s.last());
        lemma_pow2_succ((n - 1) as nat);
        assert(bool_nat(s.last()) * pow2(n) == 2 * (bool_nat(s.last()) * pow2((n - 1) as nat)))
            by (nonlinear_arith)
            requires
                pow2(n) == 2 * pow2((n - 1) as nat),
        ;
    }
}

/// A number below `2^n` is the value of its `n` low bits.
pub proof fn lemma_nat_bits(v: nat, n: nat)
    requires
        v < pow2(n),
    ensures
        bits_val(nat_bits(v, n)) == v,
    decreases n,
{
    if n == 0 {
        lemma2_to64();
    } else {
        let s = nat_bits(v, n);
        lemma_bits_val_lsb(s);
        lemma_pow2_succ((n - 1) as nat);
        lemma2_to64();
        assert(v / 2 < pow2((n - 1) as nat));
        lemma_nat_bits(v / 2, (n - 1) as nat);
        assert forall|i: int| 0 <= i < n - 1 implies s.drop_first()[i] == nat_bits(
            v / 2,
            (n - 1) as nat,
        )[i] by {
            lemma_pow2_pos(i as nat);
            vstd::arithmetic::div_mod::lemma_div_denominator(v as int, 2, pow2(i as nat) as int);
            lemma_pow2_succ(i as nat);
            assert(pow2((i + 1) as nat) == 2 * pow2(i as nat));
        }
        assert(s.drop_first() =~= nat_bits(v / 2, (n - 1) as nat));
        assert(pow2(0) == 1);
        assert(v / pow2(0) == v);
        assert(s[0] == (v % 2 == 1));
    }
}

} // verus!

verus! {

/// Appending a zero bit on the most significant side keeps the value.
pub proof fn lemma_bits_val_push_false(s: Seq<bool>)
    ensures
        bits_val(s.push(false)) == bits_val(s),
{
    assert(s.push(false).drop_last() =~= s);
}

/// Shifting right by one bit halves the value.
pub proof fn lemma_bits_val_shr1(s: Seq<bool>)
    requires
        s.len() > 0,
    ensures
        bits_val(seq_shr(s, 1)) == bits_val(s) / 2,
{
    lemma_bits_val_lsb(s);
    assert(seq_shr(s, 1) =~= s.drop_first().push(false));
    lemma_bits_val_push_false(s.drop_first());
}

/// Shifting left by one bit doubles the value, modulo two to the length.
pub proof fn lemma_bits_val_shl1(s: Seq<bool>)
    requires
        s.len() > 0,
    ensures
        bits_val(seq_shl(s, 1)) == (2 * bits_val(s)) % pow2(s.len()),
{
    let n = (s.len() - 1) as nat;
    let t = seq_shl(s, 1);
    lemma_bits_val_lsb(t);
    assert(t.drop_first() =~= s.drop_last());
    assert(!t[0]);
    lemma_bits_val_bound(s.drop_last());
    lemma_pow2_succ(n);
    let d = bits_val(s.drop_last());
    assert(bits_val(s) == d + bool_nat(s.last()) * pow2(n));
    assert(2 * bits_val(s) == 2 * d + bool_nat(s.last()) * pow2(s.len())) by (nonlinear_arith)
        requires
            bits_val(s) == d + bool_nat(s.last()) * pow2(n),
            pow2(s.len()) == 2 * pow2(n),
    ;
    vstd::arithmetic::div_mod::lemma_fundamental_div_mod_converse(
        (2 * bits_val(s)) as int,
        pow2(s.len()) as int,
        bool_nat(s.last()) as int,
        (2 * d) as int,
    );
}

/// Shifting right by `k` bits divides the value by two to the `k`.
#[verifier::spinoff_prover]
pub proof fn lemma_bits_val_shr(s: Seq<bool>, k: nat)
    ensures
        bits_val(seq_shr(s, k as int)) == bits_val(s) / pow2(k),
    decreases k,
{
    if k == 0 {
        assert(seq_shr(s, 0) =~= s);
        lemma2_to64();
        assert(bits_val(s) / 1 == bits_val(s));
    } else if s.len() == 0 {
        assert(bits_val(seq_shr(s, k as int)) == 0);
        assert(bits_val(s) == 0);
        lemma_pow2_pos(k);
        vstd::arithmetic::div_mod::lemma_basic_div(0, pow2(k) as int);
    } else {
        lemma_bits_val_shr(s, (k - 1) as nat);
        let t = seq_shr(s, (k - 1) as int);
        lemma_bits_val_shr1(t);
        assert(seq_shr(t, 1) =~= seq_shr(s, k as int));
        let p = pow2((k - 1) as nat);
        lemma_pow2_pos((k - 1) as nat);
        vstd::arithmetic::div_mod::lemma_div_denominator(bits_val(s) as int, p as int, 2);
        lemma_pow2_succ((k - 1) as nat);
        assert(p * 2 == pow2(k));
        assert(bits_val(t) == bits_val(s) / p);
        assert(bits_val(seq_shr(t, 1)) == (bits_val(s) / p) / 2);
    }
}

/// Shifting left by `k` bits multiplies the value by two to the `k`, modulo two to the length.
pub proof fn lemma_bits_val_shl(s: Seq<bool>, k: nat)
    ensures
        bits_val(seq_shl(s, k as int)) == (bits_val(s) * pow2(k)) % pow2(s.len()),
    decreases k,
{
    lemma_pow2_pos(s.len());
    if k == 0 {
        assert(seq_shl(s, 0) =~= s);
        lemma2_to64();
        lemma_bits_val_bound(s);
        vstd::arithmetic::div_mod::lemma_small_mod(bits_val(s), pow2(s.len()));
    } else if s.len() == 0 {
        lemma2_to64();
        assert(bits_val(seq_shl(s, k as int)) == 0);
    } else {
        lemma_bits_val_shl(s, (k - 1) as nat);
        let t = seq_shl(s, (k - 1) as int);
        lemma_bits_val_shl1(t);
        assert(seq_shl(t, 1) =~= seq_shl(s, k as int));
        let m = pow2(s.len()) as int;
        let v = bits_val(s) as int;
        let q = pow2((k - 1) as nat) as int;
        lemma_pow2_succ((k - 1) as nat);
        vstd::arithmetic::div_mod::lemma_mul_mod_noop_right(2, v * q, m);
        assert(2 * (v * q) == v * pow2(k)) by (nonlinear_arith)
            requires
                pow2(k) == 2 * q,
        ;
    }
}

/// The value of a disjunction of bit sequences without common set bits is the sum of values.
pub proof fn lemma_bits_val_or_disjoint(a: Seq<bool>, b: Seq<bool>)
    requires
        a.len() == b.len(),
        forall|i: int| 0 <= i < a.len() ==> !(a[i] && b[i]),
    ensures
        bits_val(seq_or(a, b)) == bits_val(a) + bits_val(b),
    decreases a.len(),
{
    if a.len() > 0 {
        assert(seq_or(a, b).drop_last() =~= seq_or(a.drop_last(), b.drop_last()));
        lemma_bits_val_or_disjoint(a.drop_last(), b.drop_last());
        let n = (a.len() - 1) as int;
        assert(!(a[n] && b[n]));
    }
}

} // verus!

verus! {

/// A bit sequence has value zero exactly when all its bits are clear.
pub proof fn lemma_bits_val_zero_iff(s: Seq<bool>)
    ensures
        (bits_val(s) == 0) == (forall|i: int| 0 <= i < s.len() ==> !s[i]),
{
    lemma_bits_val_zeros(s.len());
    if bits_val(s) == 0 {
        lemma_bits_val_injective(s, seq_zeros(s.len()));
        assert forall|i: int| 0 <= i < s.len() implies !s[i] by {
            assert(s[i] == seq_zeros(s.len())[i]);
        }
    } else {
        if forall|i: int| 0 <= i < s.len() ==> !s[i] {
            assert(s =~= seq_zeros(s.len()));
        }
    }
}

/// Bits at positions at or above `k` of a number below `2^k` are clear.
pub proof fn lemma_nat_bits_high_zero(v: nat, k: nat, i: nat)
    requires
        v < pow2(k),
        k <= i,
    ensures
        (v / pow2(i)) % 2 == 0,
{
    if k < i {
        lemma_pow2_strictly_increases(k, i);
    }
    lemma_pow2_pos(i);
    vstd::arithmetic::div_mod::lemma_basic_div(v as int, pow2(i) as int);
}

} // verus!
