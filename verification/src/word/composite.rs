//! Composite words: fixed-size arrays of machine words, in little-endian word order.
use crate::word::bitseq::{
    bits_val, bool_nat, carries, carry_at, lemma_adder, lemma_bits_val_not, seq_add, seq_add_carry,
    seq_and, seq_not, seq_or, seq_rotl, seq_rotr, seq_shl, seq_shr, seq_swap_bytes, seq_xor, seq_zeros,
};
use vstd::arithmetic::power2::pow2;
use crate::word::word::{lemma_byte_swap_bit, le_bytes_val, nat_le_bytes, Word};
use vstd::prelude::*;

verus! {

/// Index arithmetic of a flattened limb array: position `i * w + j` is bit `j` of limb `i`.
pub proof fn lemma_limb_index(i: int, j: int, w: int)
    requires
        0 <= j < w,
        0 <= i,
    ensures
        (i * w + j) / w == i,
        (i * w + j) % w == j,
        0 <= i * w,
{
    vstd::arithmetic::div_mod::lemma_fundamental_div_mod_converse(i * w + j, w, i, j);
    vstd::arithmetic::mul::lemma_mul_nonnegative(i, w);
}

/// Bounds of the limb and bit index of a position in a flattened limb array.
pub proof fn lemma_limb_bounds(k: int, w: int, n: int)
    requires
        0 <= k < w * n,
        0 < w,
    ensures
        0 <= k / w < n,
        0 <= k % w < w,
        k == (k / w) * w + k % w,
{
    vstd::arithmetic::div_mod::lemma_fundamental_div_mod(k, w);
    vstd::arithmetic::div_mod::lemma_div_pos_is_pos(k, w);
    vstd::arithmetic::div_mod::lemma_mod_pos_bound(k, w);
    vstd::arithmetic::mul::lemma_mul_is_commutative(w, k / w);
    let q = k / w;
    assert(q < n) by (nonlinear_arith)
        requires
            k == w * q + k % w,
            k % w >= 0,
            k < w * n,
            w > 0,
    ;
}

/// Implementation of composite words, wrapping fixed-size arrays of fixed-width [Word]s.
///
/// A composite word of `N` words of width `w` is modelled by its `w * N` little-endian bits
/// ([CompositeWord::cbits]), bit `i * w + j` being bit `j` of the word at index `i`.
#[derive(Clone, Copy)]
pub struct CompositeWord<W: Word, const N: usize> {
    le_words: [W; N],
}

impl<W: Word, const N: usize> CompositeWord<W, N> {
    /// The words of this composite word, least significant first.
    pub closed spec fn words(self) -> Seq<W> {
        self.le_words@
    }

    /// Width in bits of this composite word type.
    pub open spec fn spec_cwidth() -> nat {
        W::spec_width() * (N as nat)
    }

    /// The little-endian bits of this composite word.
    pub open spec fn cbits(self) -> Seq<bool> {
        Seq::new(
            Self::spec_cwidth(),
            |k: int| self.words()[k / (W::spec_width() as int)].bits()[k % (W::spec_width() as int)],
        )
    }

    /// The numeric value of this composite word.
    pub open spec fn cvalue(self) -> nat {
        bits_val(self.cbits())
    }

    /// The words of a composite word are `N` in number.
    pub proof fn lemma_words_len(self)
        ensures
            self.words().len() == N,
    {
    }

    /// Bit `j` of word `i` sits at position `i * w + j` of the composite bits.
    pub proof fn lemma_cbit(self, i: int, j: int)
        requires
            0 <= i < N,
            0 <= j < W::spec_width(),
        ensures
            0 <= i * (W::spec_width() as int) + j < Self::spec_cwidth(),
            self.cbits()[i * (W::spec_width() as int) + j] == self.words()[i].bits()[j],
    {
        let w = W::spec_width() as int;
        lemma_limb_index(i, j, w);
        vstd::arithmetic::mul::lemma_mul_inequality(i + 1, N as int, w);
        vstd::arithmetic::mul::lemma_mul_is_distributive_add_other_way(w, i, 1);
        vstd::arithmetic::mul::lemma_mul_is_commutative(w, N as int);
    }

    /// Composite words with the same bits are equal.
    pub proof fn lemma_ext(a: Self, b: Self)
        requires
            a.cbits() == b.cbits(),
        ensures
            a == b,
    {
        let w = W::spec_width() as int;
        W::lemma_width();
        assert forall|i: int| 0 <= i < N implies a.words()[i] == b.words()[i] by {
            a.words()[i].lemma_word_bits();
            b.words()[i].lemma_word_bits();
            assert forall|j: int| 0 <= j < w implies a.words()[i].bits()[j] == b.words()[i].bits()[j] by {
                a.lemma_cbit(i, j);
                b.lemma_cbit(i, j);
            }
            assert(a.words()[i].bits() =~= b.words()[i].bits());
            W::lemma_word_ext(a.words()[i], b.words()[i]);
        }
        assert(a.le_words@ =~= b.le_words@);
        assert(a.le_words =~= b.le_words);
    }

    /// Composite words whose words agree bit by bit have the same composite bits.
    pub proof fn lemma_cbits_from_words(a: Self, s: Seq<bool>)
        requires
            s.len() == Self::spec_cwidth(),
            forall|i: int, j: int|
                0 <= i < N && 0 <= j < W::spec_width() ==> #[trigger] a.words()[i].bits()[j] == s[i
                    * (W::spec_width() as int) + j],
        ensures
            a.cbits() == s,
    {
        let w = W::spec_width() as int;
        W::lemma_width();
        assert forall|k: int| 0 <= k < Self::spec_cwidth() implies a.cbits()[k] == s[k] by {
            lemma_limb_bounds(k, w, N as int);
            assert(a.words()[k / w].bits()[k % w] == s[(k / w) * w + k % w]);
        }
        assert(a.cbits() =~= s);
    }
}

impl<W: Word, const N: usize> CompositeWord<W, N> {
    /// Creates a composite word from an array of words in little-endian order.
    pub fn from_le_words(le_words: [W; N]) -> (r: Self)
        ensures
            r.words() == le_words@,
    {
        Self { le_words }
    }

    /// Little-endian word array representation of this composite word.
    pub fn to_le_words(self) -> (r: [W; N])
        ensures
            r@ == self.words(),
    {
        self.le_words
    }

    /// Creates a composite word from an array of words in big-endian order.
    pub fn from_be_words(be_words: [W; N]) -> (r: Self)
        ensures
            r.words() == be_words@.reverse(),
    {
        Self { le_words: reverse_array(be_words) }
    }

    /// Big-endian word array representation of this composite word.
    pub fn to_be_words(self) -> (r: [W; N])
        ensures
            r@ == self.words().reverse(),
    {
        reverse_array(self.le_words)
    }

    /// Width in bits of this composite word type.
    pub fn width() -> (r: usize)
        requires
            W::spec_width() * N <= usize::MAX,
        ensures
            r == Self::spec_cwidth(),
    {
        W::width() * N
    }

    /// The all-zero composite word.
    pub fn zero() -> (r: Self)
        ensures
            r.cbits() == seq_zeros(Self::spec_cwidth()),
            r.cvalue() == 0,
    {
        let z = W::zero();
        let r = Self { le_words: [z; N] };
        proof {
            z.lemma_zero_bits();
            assert forall|i: int, j: int|
                0 <= i < N && 0 <= j < W::spec_width() implies #[trigger] r.words()[i].bits()[j]
                == seq_zeros(Self::spec_cwidth())[i * (W::spec_width() as int) + j] by {
                r.lemma_cbit(i, j);
            }
            Self::lemma_cbits_from_words(r, seq_zeros(Self::spec_cwidth()));
            crate::word::bitseq::lemma_bits_val_zeros(Self::spec_cwidth());
        }
        r
    }

    /// Bitwise NOT operation.
    pub fn not(self) -> (r: Self)
        ensures
            r.cbits() == seq_not(self.cbits()),
    {
        let mut res = self.le_words;
        let mut i: usize = 0;
        while i < N
            invariant
                i <= N,
                forall|k: int| 0 <= k < i ==> #[trigger] res@[k].bits() == seq_not(self.words()[k].bits()),
                forall|k: int| i <= k < N ==> #[trigger] res@[k] == self.words()[k],
            decreases N - i,
        {
            res[i] = self.le_words[i].not();
            i = i + 1;
        }
        let r = Self { le_words: res };
        proof {
            assert forall|i: int, j: int|
                0 <= i < N && 0 <= j < W::spec_width() implies #[trigger] r.words()[i].bits()[j]
                == seq_not(self.cbits())[i * (W::spec_width() as int) + j] by {
                self.lemma_cbit(i, j);
                self.words()[i].lemma_word_bits();
            }
            Self::lemma_cbits_from_words(r, seq_not(self.cbits()));
        }
        r
    }
}

/// Reverses the order of the elements of an array.
pub fn reverse_array<T: Copy, const N: usize>(a: [T; N]) -> (r: [T; N])
    ensures
        r@ == a@.reverse(),
{
    let mut res = a;
    let mut i: usize = 0;
    while i < N
        invariant
            i <= N,
            a@.len() == N,
            res@.len() == N,
            forall|k: int| 0 <= k < i ==> #[trigger] res@[k] == a@[N - 1 - k],
        decreases N - i,
    {
        res[i] = a[N - 1 - i];
        i = i + 1;
    }
    proof {
        assert(res@ =~= a@.reverse());
    }
    res
}

impl<W: Word, const N: usize> CompositeWord<W, N> {
    /// Bitwise XOR operation.
    pub fn bitxor(self, rhs: Self) -> (r: Self)
        ensures
            r.cbits() == seq_xor(self.cbits(), rhs.cbits()),
    {
        let mut res = self.le_words;
        let mut i: usize = 0;
        while i < N
            invariant
                i <= N,
                forall|k: int|
                    0 <= k < i ==> #[trigger] res@[k].bits() == seq_xor(
                        self.words()[k].bits(),
                        rhs.words()[k].bits(),
                    ),
            decreases N - i,
        {
            res[i] = self.le_words[i].bitxor(rhs.le_words[i]);
            i = i + 1;
        }
        let r = Self { le_words: res };
        proof {
            assert forall|i: int, j: int|
                0 <= i < N && 0 <= j < W::spec_width() implies #[trigger] r.words()[i].bits()[j]
                == seq_xor(self.cbits(), rhs.cbits())[i * (W::spec_width() as int) + j] by {
                self.lemma_cbit(i, j);
                rhs.lemma_cbit(i, j);
                self.words()[i].lemma_word_bits();
            }
            Self::lemma_cbits_from_words(r, seq_xor(self.cbits(), rhs.cbits()));
        }
        r
    }

    /// Bitwise AND operation.
    pub fn bitand(self, rhs: Self) -> (r: Self)
        ensures
            r.cbits() == seq_and(self.cbits(), rhs.cbits()),
    {
        let mut res = self.le_words;
        let mut i: usize = 0;
        while i < N
            invariant
                i <= N,
                forall|k: int|
                    0 <= k < i ==> #[trigger] res@[k].bits() == seq_and(
                        self.words()[k].bits(),
                        rhs.words()[k].bits(),
                    ),
            decreases N - i,
        {
            res[i] = self.le_words[i].bitand(rhs.le_words[i]);
            i = i + 1;
        }
        let r = Self { le_words: res };
        proof {
            assert forall|i: int, j: int|
                0 <= i < N && 0 <= j < W::spec_width() implies #[trigger] r.words()[i].bits()[j]
                == seq_and(self.cbits(), rhs.cbits())[i * (W::spec_width() as int) + j] by {
                self.lemma_cbit(i, j);
                rhs.lemma_cbit(i, j);
                self.words()[i].lemma_word_bits();
            }
            Self::lemma_cbits_from_words(r, seq_and(self.cbits(), rhs.cbits()));
        }
        r
    }

    /// Bitwise OR operation.
    pub fn bitor(self, rhs: Self) -> (r: Self)
        ensures
            r.cbits() == seq_or(self.cbits(), rhs.cbits()),
    {
        let mut res = self.le_words;
        let mut i: usize = 0;
        while i < N
            invariant
                i <= N,
                forall|k: int|
                    0 <= k < i ==> #[trigger] res@[k].bits() == seq_or(
                        self.words()[k].bits(),
                        rhs.words()[k].bits(),
                    ),
            decreases N - i,
        {
            res[i] = self.le_words[i].bitor(rhs.le_words[i]);
            i = i + 1;
        }
        let r = Self { le_words: res };
        proof {
            assert forall|i: int, j: int|
                0 <= i < N && 0 <= j < W::spec_width() implies #[trigger] r.words()[i].bits()[j]
                == seq_or(self.cbits(), rhs.cbits())[i * (W::spec_width() as int) + j] by {
                self.lemma_cbit(i, j);
                rhs.lemma_cbit(i, j);
                self.words()[i].lemma_word_bits();
            }
            Self::lemma_cbits_from_words(r, seq_or(self.cbits(), rhs.cbits()));
        }
        r
    }

    /// The composite word one.
    pub fn one() -> (r: Self)
        requires
            N > 0,
        ensures
            r.cbits()[0],
            forall|k: int| 0 < k < Self::spec_cwidth() ==> !#[trigger] r.cbits()[k],
            r.cvalue() == 1,
    {
        let z = W::zero();
        let mut res = [z; N];
        res[0] = W::one();
        let r = Self { le_words: res };
        proof {
            let s = Seq::new(Self::spec_cwidth(), |k: int| k == 0);
            z.lemma_zero_bits();
            r.words()[0].lemma_one_bits();
            W::lemma_width();
            assert forall|i: int, j: int|
                0 <= i < N && 0 <= j < W::spec_width() implies #[trigger] r.words()[i].bits()[j]
                == s[i * (W::spec_width() as int) + j] by {
                r.lemma_cbit(i, j);
                if i > 0 {
                    vstd::arithmetic::mul::lemma_mul_inequality(1, i, W::spec_width() as int);
                }
            }
            Self::lemma_cbits_from_words(r, s);
            r.lemma_cbit(0, 0);
            crate::word::bitseq::lemma_bits_val_one(r.cbits());
        }
        r
    }

    /// The composite word with all bits set.
    pub fn max_word() -> (r: Self)
        ensures
            r.cbits() == Seq::new(Self::spec_cwidth(), |k: int| true),
            r.cvalue() + 1 == vstd::arithmetic::power2::pow2(Self::spec_cwidth()),
    {
        let m = W::max_word();
        let r = Self { le_words: [m; N] };
        proof {
            let s = Seq::new(Self::spec_cwidth(), |k: int| true);
            m.lemma_word_bits();
            crate::word::bitseq::lemma_nat_bits(m.value(), W::spec_width());
            crate::word::word::lemma_all_bits(W::spec_width());
            crate::word::bitseq::lemma_bits_val_injective(
                m.bits(),
                seq_not(seq_zeros(W::spec_width())),
            );
            assert forall|i: int, j: int|
                0 <= i < N && 0 <= j < W::spec_width() implies #[trigger] r.words()[i].bits()[j]
                == s[i * (W::spec_width() as int) + j] by {
                r.lemma_cbit(i, j);
            }
            Self::lemma_cbits_from_words(r, s);
            assert(s =~= seq_not(seq_zeros(Self::spec_cwidth())));
            crate::word::word::lemma_all_bits(Self::spec_cwidth());
        }
        r
    }
}

impl<W: Word, const N: usize> CompositeWord<W, N> {
    /// Creates [CompositeWord::zero] or [CompositeWord::one] from a boolean.
    pub fn from_bool(b: bool) -> (r: Self)
        requires
            N > 0,
        ensures
            r.cvalue() == crate::word::bitseq::bool_nat(b),
            r.cbits() == Seq::new(Self::spec_cwidth(), |k: int| b && k == 0),
    {
        let r = if b {
            Self::one()
        } else {
            Self::zero()
        };
        proof {
            assert(r.cbits() =~= Seq::new(Self::spec_cwidth(), |k: int| b && k == 0));
        }
        r
    }

    /// Creates a boolean mask from the given bool, with all bits set to the boolean value.
    pub fn mask(b: bool) -> (r: Self)
        ensures
            r.cbits() == Seq::new(Self::spec_cwidth(), |k: int| b),
    {
        let r = if b {
            Self::max_word()
        } else {
            Self::zero()
        };
        proof {
            assert(r.cbits() =~= Seq::new(Self::spec_cwidth(), |k: int| b));
        }
        r
    }

    /// Word-reversal of this composite word.
    pub fn swap_words(self) -> (r: Self)
        ensures
            r.words() == self.words().reverse(),
    {
        Self { le_words: reverse_array(self.le_words) }
    }

    /// Least significant word of this composite word.
    pub fn lsw(self) -> (r: W)
        requires
            N > 0,
        ensures
            r == self.words()[0],
    {
        self.le_words[0]
    }

    /// Most significant word of this composite word.
    pub fn msw(self) -> (r: W)
        requires
            N > 0,
        ensures
            r == self.words()[N - 1],
    {
        self.le_words[N - 1]
    }

    /// Word at given index of this composite word, or zero if index is out of bounds.
    pub fn word_at(self, idx: usize) -> (r: W)
        ensures
            idx < N ==> r == self.words()[idx as int],
            idx >= N ==> r.value() == 0,
    {
        if idx >= N {
            return W::zero();
        }
        self.le_words[idx]
    }

    /// Least significant bit of this composite word.
    pub fn lsb(self) -> (r: bool)
        requires
            N > 0,
        ensures
            r == self.cbits()[0],
    {
        proof {
            W::lemma_width();
            self.lemma_cbit(0, 0);
        }
        self.lsw().lsb()
    }

    /// Most significant bit of this composite word.
    pub fn msb(self) -> (r: bool)
        requires
            N > 0,
        ensures
            r == self.cbits()[Self::spec_cwidth() - 1],
    {
        proof {
            W::lemma_width();
            let w = W::spec_width() as int;
            self.lemma_cbit(N - 1, w - 1);
            assert((N - 1) * w + (w - 1) == N * w - 1) by (nonlinear_arith);
            vstd::arithmetic::mul::lemma_mul_is_commutative(w, N as int);
        }
        self.msw().msb()
    }

    /// Bit of this composite word at given index, or false if index is out of bounds.
    pub fn bit_at(self, idx: usize) -> (r: bool)
        ensures
            r == (idx < Self::spec_cwidth() && self.cbits()[idx as int]),
    {
        proof {
            W::lemma_width();
        }
        let w = W::width();
        let word_idx = idx / w;
        let bit_idx = idx % w;
        let wa = self.word_at(word_idx);
        let r = wa.bit_at(bit_idx);
        proof {
            let wi = w as int;
            vstd::arithmetic::div_mod::lemma_fundamental_div_mod(idx as int, wi);
            if idx < Self::spec_cwidth() {
                lemma_limb_bounds(idx as int, wi, N as int);
                self.lemma_cbit(word_idx as int, bit_idx as int);
            } else if word_idx < N {
                assert(idx as int >= N * wi);
                assert(word_idx * wi + bit_idx < N * wi) by (nonlinear_arith)
                    requires
                        word_idx < N,
                        bit_idx < wi,
                ;
                vstd::arithmetic::mul::lemma_mul_is_commutative(wi, word_idx as int);
                assert(false);
            } else {
                wa.lemma_zero_bits();
            }
        }
        r
    }

    /// Equality comparison.
    pub fn eq(self, rhs: Self) -> (r: bool)
        ensures
            r == (self == rhs),
    {
        let mut i: usize = 0;
        while i < N
            invariant
                i <= N,
                forall|k: int| 0 <= k < i ==> #[trigger] self.words()[k] == rhs.words()[k],
            decreases N - i,
        {
            if self.le_words[i].ne(rhs.le_words[i]) {
                return false;
            }
            i = i + 1;
        }
        proof {
            self.lemma_words_len();
            rhs.lemma_words_len();
            assert(self.le_words@ =~= rhs.le_words@);
            assert(self.le_words =~= rhs.le_words);
        }
        true
    }

    /// Inequality comparison.
    pub fn ne(self, rhs: Self) -> (r: bool)
        ensures
            r == (self != rhs),
    {
        !self.eq(rhs)
    }

    /// A composite word is zero exactly when its value is zero.
    pub proof fn lemma_zero_iff(self, z: Self)
        requires
            z.cvalue() == 0,
        ensures
            (self == z) == (self.cvalue() == 0),
    {
        crate::word::bitseq::lemma_bits_val_zero_iff(self.cbits());
        crate::word::bitseq::lemma_bits_val_zero_iff(z.cbits());
        if self.cvalue() == 0 {
            assert(self.cbits() =~= z.cbits());
            Self::lemma_ext(self, z);
        }
    }

    /// Returns true if this composite word is equal to [CompositeWord::zero].
    pub fn is_zero(self) -> (r: bool)
        ensures
            r == (self.cvalue() == 0),
    {
        let z = Self::zero();
        proof {
            self.lemma_zero_iff(z);
        }
        self.eq(z)
    }

    /// Returns true if this composite word is not equal to [CompositeWord::zero].
    pub fn is_nonzero(self) -> (r: bool)
        ensures
            r == (self.cvalue() != 0),
    {
        let z = Self::zero();
        proof {
            self.lemma_zero_iff(z);
        }
        self.ne(z)
    }
}

impl<W: Word> CompositeWord<W, 1> {
    /// Unwraps a single-word composite word into the base word.
    pub fn into(self) -> (r: W)
        ensures
            r == self.words()[0],
    {
        self.le_words[0]
    }
}

/// The carry out of the most significant bit of an addition, in terms of the most significant
/// bits of the operands and of the sum.
pub proof fn lemma_add_carry_msb(a: Seq<bool>, b: Seq<bool>, cin: bool)
    requires
        a.len() == b.len(),
        a.len() > 0,
    ensures
        seq_add_carry(a, b, cin) == ((a[a.len() - 1] && b[a.len() - 1]) || ((a[a.len() - 1]
            != b[a.len() - 1]) && !seq_add(a, b, cin)[a.len() - 1])),
{
    let n = a.len();
    let p = seq_xor(a, b);
    let g = seq_and(a, b);
    assert(carry_at(p, g, cin, n) == ((carry_at(p, g, cin, (n - 1) as nat) && p[n - 1]) != g[n
        - 1]));
}

/// Value of an addition with carry: the sum modulo `2^n` and its carry out.
pub proof fn lemma_add_value(a: Seq<bool>, b: Seq<bool>, cin: bool)
    requires
        a.len() == b.len(),
    ensures
        bits_val(seq_add(a, b, cin)) == (bits_val(a) + bits_val(b) + bool_nat(cin)) % pow2(
            a.len(),
        ),
        seq_add_carry(a, b, cin) == (bits_val(a) + bits_val(b) + bool_nat(cin) >= pow2(a.len())),
{
    lemma_adder(a, b, cin);
    crate::word::bitseq::lemma_bits_val_bound(seq_add(a, b, cin));
    crate::word::bitseq::lemma_bits_val_bound(a);
    crate::word::bitseq::lemma_bits_val_bound(b);
}

impl<W: Word, const N: usize> CompositeWord<W, N> {
    /// Carry generation: the carries of adding with propagate bits `self`, generate bits `g`
    /// and carry-in `c`, together with the carry out of the most significant bit.
    pub fn carry(self, g: Self, c: bool) -> (r: (Self, bool))
        ensures
            r.0.cbits() == carries(self.cbits(), g.cbits(), c, Self::spec_cwidth()),
            r.1 == carry_at(self.cbits(), g.cbits(), c, Self::spec_cwidth()),
    {
        let ghost ps = self.cbits();
        let ghost gs = g.cbits();
        let ghost cin = c;
        let ghost w = W::spec_width() as int;
        proof {
            W::lemma_width();
        }
        let mut c = c;
        let mut carry = [W::zero(); N];
        let mut i: usize = 0;
        while i < N
            invariant
                i <= N,
                w == W::spec_width(),
                w > 0,
                ps == self.cbits(),
                gs == g.cbits(),
                forall|k: int, j: int|
                    0 <= k < i && 0 <= j < w ==> #[trigger] carry@[k].bits()[j] == carry_at(
                        ps,
                        gs,
                        cin,
                        (k * w + j) as nat,
                    ),
                c == carry_at(ps, gs, cin, (i * w) as nat),
            decreases N - i,
        {
            let pi = self.le_words[i];
            let gi = g.le_words[i];
            let (ci, co) = pi.carry(gi, c);
            proof {
                pi.lemma_word_bits();
                gi.lemma_word_bits();
                assert forall|j: int| 0 <= j < w implies pi.bits()[j] == ps[i * w + j] && gi.bits()[j]
                    == gs[i * w + j] by {
                    self.lemma_cbit(i as int, j);
                    g.lemma_cbit(i as int, j);
                }
                assert forall|j: int| 0 <= j <= w implies #[trigger] carry_at(pi.bits(), gi.bits(), c, j as nat)
                    == carry_at(ps, gs, cin, (i * w + j) as nat) by {
                    vstd::arithmetic::mul::lemma_mul_nonnegative(i as int, w);
                    crate::word::bitseq::lemma_carry_at_split(
                        ps,
                        gs,
                        cin,
                        (i * w) as nat,
                        pi.bits(),
                        gi.bits(),
                        j as nat,
                    );
                }
                assert(carry_at(pi.bits(), gi.bits(), c, w as nat) == carry_at(
                    ps,
                    gs,
                    cin,
                    (i * w + w) as nat,
                ));
                vstd::arithmetic::mul::lemma_mul_is_distributive_add_other_way(w, i as int, 1);
                assert((i + 1) * w == i * w + w);
            }
            carry[i] = ci;
            c = co;
            i = i + 1;
        }
        let r = Self { le_words: carry };
        proof {
            assert forall|i: int, j: int|
                0 <= i < N && 0 <= j < W::spec_width() implies #[trigger] r.words()[i].bits()[j]
                == carries(ps, gs, cin, Self::spec_cwidth())[i * w + j] by {
                r.lemma_cbit(i, j);
            }
            Self::lemma_cbits_from_words(r, carries(ps, gs, cin, Self::spec_cwidth()));
            vstd::arithmetic::mul::lemma_mul_is_commutative(w, N as int);
        }
        (r, c)
    }

    /// Wrapping addition with a fixed initial carry.
    fn wrapping_add_with_carry(self, rhs: Self, carry: bool) -> (r: Self)
        ensures
            r.cbits() == seq_add(self.cbits(), rhs.cbits(), carry),
            r.cvalue() == (self.cvalue() + rhs.cvalue() + bool_nat(carry)) % pow2(
                Self::spec_cwidth(),
            ),
    {
        let p = self.bitxor(rhs);
        let g = self.bitand(rhs);
        let (c, _) = p.carry(g, carry);
        let r = p.bitxor(c);
        proof {
            lemma_add_value(self.cbits(), rhs.cbits(), carry);
        }
        r
    }

    /// Two's complement negation.
    pub fn wrapping_neg(self) -> (r: Self)
        ensures
            r.cvalue() == (pow2(Self::spec_cwidth()) - self.cvalue()) % (pow2(
                Self::spec_cwidth(),
            ) as int),
    {
        let r = self.not().wrapping_add_with_carry(Self::zero(), true);
        proof {
            lemma_bits_val_not(self.cbits());
        }
        r
    }

    /// Wrapping addition.
    pub fn wrapping_add(self, rhs: Self) -> (r: Self)
        ensures
            r.cbits() == seq_add(self.cbits(), rhs.cbits(), false),
            r.cvalue() == (self.cvalue() + rhs.cvalue()) % pow2(Self::spec_cwidth()),
    {
        self.wrapping_add_with_carry(rhs, false)
    }

    /// Overflowing addition: the wrapped sum and whether the sum overflowed.
    pub fn overflowing_add(self, rhs: Self) -> (r: (Self, bool))
        requires
            N > 0,
        ensures
            r.0.cvalue() == (self.cvalue() + rhs.cvalue()) % pow2(Self::spec_cwidth()),
            r.1 == (self.cvalue() + rhs.cvalue() >= pow2(Self::spec_cwidth())),
    {
        let sum = self.wrapping_add(rhs);
        let self_msb = self.msb();
        let rhs_msb = rhs.msb();
        let sum_msb = sum.msb();
        let carry = (self_msb && rhs_msb) || ((self_msb != rhs_msb) && !sum_msb);
        proof {
            W::lemma_width();
            vstd::arithmetic::mul::lemma_mul_inequality(1, N as int, W::spec_width() as int);
            lemma_add_carry_msb(self.cbits(), rhs.cbits(), false);
            lemma_add_value(self.cbits(), rhs.cbits(), false);
        }
        (sum, carry)
    }

    /// Wrapping subtraction.
    pub fn wrapping_sub(self, rhs: Self) -> (r: Self)
        ensures
            r.cvalue() == (self.cvalue() + pow2(Self::spec_cwidth()) - rhs.cvalue()) % (pow2(
                Self::spec_cwidth(),
            ) as int),
    {
        let r = self.wrapping_add_with_carry(rhs.not(), true);
        proof {
            lemma_bits_val_not(rhs.cbits());
        }
        r
    }

    /// Overflowing subtraction: the wrapped difference and whether the difference borrowed.
    pub fn overflowing_sub(self, rhs: Self) -> (r: (Self, bool))
        requires
            N > 0,
        ensures
            r.0.cvalue() == (self.cvalue() + pow2(Self::spec_cwidth()) - rhs.cvalue()) % (pow2(
                Self::spec_cwidth(),
            ) as int),
            r.1 == (self.cvalue() < rhs.cvalue()),
    {
        let nr = rhs.not();
        let diff = self.wrapping_add_with_carry(nr, true);
        let self_msb = self.msb();
        let rhs_msb = rhs.msb();
        let diff_msb = diff.msb();
        let borrow = (!self_msb && rhs_msb) || ((self_msb == rhs_msb) && diff_msb);
        proof {
            W::lemma_width();
            vstd::arithmetic::mul::lemma_mul_inequality(1, N as int, W::spec_width() as int);
            lemma_bits_val_not(rhs.cbits());
            lemma_add_carry_msb(self.cbits(), nr.cbits(), true);
            lemma_add_value(self.cbits(), nr.cbits(), true);
        }
        (diff, borrow)
    }

    /// Less than comparison.
    pub fn lt(self, rhs: Self) -> (r: bool)
        requires
            N > 0,
        ensures
            r == (self.cvalue() < rhs.cvalue()),
    {
        let (_, borrow) = self.overflowing_sub(rhs);
        borrow
    }

    /// Greater than or equal comparison.
    pub fn ge(self, rhs: Self) -> (r: bool)
        requires
            N > 0,
        ensures
            r == (self.cvalue() >= rhs.cvalue()),
    {
        !self.lt(rhs)
    }

    /// Less than or equal comparison.
    pub fn le(self, rhs: Self) -> (r: bool)
        requires
            N > 0,
        ensures
            r == (self.cvalue() <= rhs.cvalue()),
    {
        !rhs.lt(self)
    }

    /// Greater than comparison.
    pub fn gt(self, rhs: Self) -> (r: bool)
        requires
            N > 0,
        ensures
            r == (self.cvalue() > rhs.cvalue()),
    {
        rhs.lt(self)
    }
}

/// Position arithmetic of rotations over `n` limbs of `w` bits: position `q * w + r` reduces
/// modulo `w * n` to bit `r` of limb `q mod n`, and adding multiples of `n` to `q` does not
/// change the limb.
pub proof fn lemma_rot_pos(q: int, r: int, m: int, w: int, n: int)
    requires
        0 <= r < w,
        n > 0,
        w > 0,
        m >= 0,
        q + m * n >= 0,
    ensures
        (q * w + r) % (w * n) == ((q + m * n) % n) * w + r,
        0 <= (q + m * n) % n < n,
{
    let q2 = q + m * n;
    vstd::arithmetic::div_mod::lemma_fundamental_div_mod(q2, n);
    vstd::arithmetic::div_mod::lemma_mod_pos_bound(q2, n);
    let d = q2 / n;
    let md = q2 % n;
    assert(q * w + r == (d - m) * (w * n) + (md * w + r)) by (nonlinear_arith)
        requires
            q2 == n * d + md,
            q2 == q + m * n,
    ;
    assert(0 <= md * w + r < w * n) by (nonlinear_arith)
        requires
            0 <= md < n,
            0 <= r < w,
    ;
    vstd::arithmetic::div_mod::lemma_fundamental_div_mod_converse(
        q * w + r,
        w * n,
        d - m,
        md * w + r,
    );
}

/// Rotating a non-empty bit sequence by a shift and by the shift modulo its length gives the
/// same sequence.
pub proof fn lemma_rot_mod(a: Seq<bool>, s: int)
    requires
        a.len() > 0,
        s >= 0,
    ensures
        seq_rotl(a, s) == seq_rotl(a, s % (a.len() as int)),
        seq_rotr(a, s) == seq_rotr(a, s % (a.len() as int)),
{
    let l = a.len() as int;
    let q = s / l;
    let r = s % l;
    vstd::arithmetic::div_mod::lemma_fundamental_div_mod(s, l);
    assert forall|i: int| 0 <= i < l implies #[trigger] seq_rotl(a, s)[i] == seq_rotl(a, r)[i] by {
        vstd::arithmetic::div_mod::lemma_mod_multiples_vanish(-q, i - r, l);
        assert(l * (-q) + (i - r) == i - s) by (nonlinear_arith)
            requires
                s == l * q + r,
        ;
    }
    assert forall|i: int| 0 <= i < l implies #[trigger] seq_rotr(a, s)[i] == seq_rotr(a, r)[i] by {
        vstd::arithmetic::div_mod::lemma_mod_multiples_vanish(q, i + r, l);
        assert(l * q + (i + r) == i + s);
    }
    assert(seq_rotl(a, s) =~= seq_rotl(a, r));
    assert(seq_rotr(a, s) =~= seq_rotr(a, r));
}

impl<W: Word, const N: usize> CompositeWord<W, N> {
    /// Left rotation by any number of bits: rotating by the width gives the word back.
    pub fn rotate_left(self, shift: usize) -> (r: Self)
        requires
            N > 0,
            W::spec_width() * N <= usize::MAX,
        ensures
            r.cbits() == seq_rotl(self.cbits(), shift as int),
    {
        proof {
            W::lemma_width();
            vstd::arithmetic::mul::lemma_mul_inequality(1, N as int, W::spec_width() as int);
        }
        let cw = W::width() * N;
        let s = shift % cw;
        proof {
            vstd::arithmetic::div_mod::lemma_div_pos_is_pos(s as int, W::spec_width() as int);
            vstd::arithmetic::div_mod::lemma_div_is_ordered(s as int, cw as int, W::spec_width() as int);
            vstd::arithmetic::div_mod::lemma_div_multiples_vanish(N as int, W::spec_width() as int);
            vstd::arithmetic::mul::lemma_mul_is_commutative(N as int, W::spec_width() as int);
            lemma_rot_mod(self.cbits(), shift as int);
        }
        self.rotate_left_within(s)
    }

    /// Left rotation by fewer words than the composite word has, or by all of them.
    fn rotate_left_within(self, shift: usize) -> (r: Self)
        requires
            N > 0,
            W::spec_width() * N <= usize::MAX,
            shift as int / (W::spec_width() as int) <= N,
        ensures
            r.cbits() == seq_rotl(self.cbits(), shift as int),
    {
        proof {
            W::lemma_width();
        }
        let w = W::width();
        let word_shift = shift / w;
        let bit_shift = shift % w;
        let ghost wi = w as int;
        let ghost n = N as int;
        proof {
            vstd::arithmetic::div_mod::lemma_fundamental_div_mod(shift as int, wi);
            vstd::arithmetic::mul::lemma_mul_inequality(2, wi, n);
        }
        let mut rotated = self.le_words;
        let mut i: usize = 0;
        while i < N
            invariant
                i <= N,
                word_shift <= N,
                wi == W::spec_width(),
                wi >= 8,
                wi * n <= usize::MAX,
                n == N,
                n + n <= usize::MAX,
                rotated@.len() == N,
                bit_shift < wi,
                forall|k: int|
                    0 <= k < i ==> #[trigger] rotated@[k].bits() == seq_rotl(
                        self.words()[(n - word_shift + k) % n].bits(),
                        bit_shift as int,
                    ),
            decreases N - i,
        {
            rotated[i] = self.le_words[(N - word_shift + i) % N].rotate_left(bit_shift);
            i = i + 1;
        }
        let ghost target = seq_rotl(self.cbits(), shift as int);
        if bit_shift == 0 {
            let r = Self { le_words: rotated };
            proof {
                assert forall|i: int, j: int|
                    0 <= i < N && 0 <= j < W::spec_width() implies #[trigger] r.words()[i].bits()[j]
                    == target[i * (W::spec_width() as int) + j] by {
                    self.lemma_cbit(i, j);
                    lemma_rot_pos(i - word_shift, j, 1, wi, n);
                    assert(i * wi + j - shift == (i - word_shift) * wi + j) by (nonlinear_arith)
                        requires
                            shift == wi * word_shift + 0,
                    ;
                    vstd::arithmetic::mul::lemma_mul_is_commutative(wi, n);
                    let a = (n - word_shift + i) % n;
                    self.lemma_cbit(a, j);
                    self.words()[a].lemma_word_bits();
                    vstd::arithmetic::div_mod::lemma_small_mod(j as nat, wi as nat);
                    assert(r.words()[i].bits()[j] == self.words()[a].bits()[j]);
                }
                Self::lemma_cbits_from_words(r, target);
            }
            return r;
        }
        let m = W::max_word();
        let hi_mask: W = m.unbounded_shl(bit_shift);
        let lo_mask: W = hi_mask.not();
        let mut res = rotated;
        let mut i: usize = 0;
        proof {
            m.lemma_word_bits();
            crate::word::word::lemma_all_bits(W::spec_width());
            crate::word::bitseq::lemma_bits_val_injective(
                m.bits(),
                seq_not(seq_zeros(W::spec_width())),
            );
        }
        while i < N
            invariant
                i <= N,
                word_shift <= N,
                wi == W::spec_width(),
                wi >= 8,
                wi * n <= usize::MAX,
                0 < bit_shift < wi,
                n == N,
                n + n <= usize::MAX,
                rotated@.len() == N,
                forall|j: int| 0 <= j < wi ==> #[trigger] hi_mask.bits()[j] == (j >= bit_shift),
                forall|j: int| 0 <= j < wi ==> #[trigger] lo_mask.bits()[j] == (j < bit_shift),
                forall|k: int|
                    0 <= k < i ==> #[trigger] res@[k].bits() == seq_xor(
                        seq_and(rotated@[k].bits(), hi_mask.bits()),
                        seq_and(rotated@[(n - 1 + k) % n].bits(), lo_mask.bits()),
                    ),
            decreases N - i,
        {
            let a = rotated[i].bitand(hi_mask);
            let b = rotated[(N - 1 + i) % N].bitand(lo_mask);
            res[i] = a.bitxor(b);
            i = i + 1;
        }
        let r = Self { le_words: res };
        proof {
            assert forall|i: int, j: int|
                0 <= i < N && 0 <= j < W::spec_width() implies #[trigger] r.words()[i].bits()[j]
                == target[i * (W::spec_width() as int) + j] by {
                self.lemma_cbit(i, j);
                vstd::arithmetic::mul::lemma_mul_is_commutative(wi, n);
                let i1 = (n - 1 + i) % n;
                vstd::arithmetic::div_mod::lemma_mod_pos_bound(n - 1 + i, n);
                rotated@[i].lemma_word_bits();
                rotated@[i1].lemma_word_bits();
                if j >= bit_shift {
                    lemma_rot_pos(i - word_shift, j - bit_shift, 1, wi, n);
                    assert(i * wi + j - shift == (i - word_shift) * wi + (j - bit_shift))
                        by (nonlinear_arith)
                        requires
                            shift == wi * word_shift + bit_shift,
                    ;
                    vstd::arithmetic::div_mod::lemma_small_mod((j - bit_shift) as nat, wi as nat);
                    self.lemma_cbit((n - word_shift + i) % n, j - bit_shift);
                } else {
                    lemma_rot_pos(i - word_shift - 1, j - bit_shift + wi, 2, wi, n);
                    assert(i * wi + j - shift == (i - word_shift - 1) * wi + (j - bit_shift + wi))
                        by (nonlinear_arith)
                        requires
                            shift == wi * word_shift + bit_shift,
                    ;
                    assert((j - bit_shift) % wi == j - bit_shift + wi) by {
                        vstd::arithmetic::div_mod::lemma_fundamental_div_mod_converse(
                            j - bit_shift,
                            wi,
                            -1,
                            j - bit_shift + wi,
                        );
                    }
                    vstd::arithmetic::div_mod::lemma_mod_mod(n - 1 + i - word_shift + n, n, 1);
                    assert((n - word_shift + i1) % n == (i - word_shift - 1 + 2 * n) % n) by {
                        vstd::arithmetic::div_mod::lemma_fundamental_div_mod(n - 1 + i, n);
                        vstd::arithmetic::div_mod::lemma_mod_multiples_vanish(
                            (n - 1 + i) / n,
                            n - word_shift + i1,
                            n,
                        );
                        assert(n * ((n - 1 + i) / n) + (n - word_shift + i1) == i - word_shift - 1
                            + 2 * n);
                    }
                    self.lemma_cbit((n - word_shift + i1) % n, j - bit_shift + wi);
                }
            }
            Self::lemma_cbits_from_words(r, target);
        }
        r
    }
}

impl<W: Word, const N: usize> CompositeWord<W, N> {
    /// Right rotation by any number of bits: rotating by the width gives the word back.
    pub fn rotate_right(self, shift: usize) -> (r: Self)
        requires
            N > 0,
            W::spec_width() * N <= usize::MAX,
        ensures
            r.cbits() == seq_rotr(self.cbits(), shift as int),
    {
        proof {
            W::lemma_width();
            vstd::arithmetic::mul::lemma_mul_inequality(1, N as int, W::spec_width() as int);
        }
        let cw = W::width() * N;
        let s = shift % cw;
        proof {
            vstd::arithmetic::div_mod::lemma_div_pos_is_pos(s as int, W::spec_width() as int);
            vstd::arithmetic::div_mod::lemma_div_is_ordered(s as int, cw as int, W::spec_width() as int);
            vstd::arithmetic::div_mod::lemma_div_multiples_vanish(N as int, W::spec_width() as int);
            vstd::arithmetic::mul::lemma_mul_is_commutative(N as int, W::spec_width() as int);
            lemma_rot_mod(self.cbits(), shift as int);
        }
        self.rotate_right_within(s)
    }

    /// Right rotation by a shift whose number of words fits beside `N` in a `usize`.
    fn rotate_right_within(self, shift: usize) -> (r: Self)
        requires
            N > 0,
            W::spec_width() * N <= usize::MAX,
            shift as int / (W::spec_width() as int) + N <= usize::MAX,
        ensures
            r.cbits() == seq_rotr(self.cbits(), shift as int),
    {
        proof {
            W::lemma_width();
        }
        let w = W::width();
        let word_shift = shift / w;
        let bit_shift = shift % w;
        let ghost wi = w as int;
        let ghost n = N as int;
        proof {
            vstd::arithmetic::div_mod::lemma_fundamental_div_mod(shift as int, wi);
        }
        let mut rotated = self.le_words;
        let mut i: usize = 0;
        while i < N
            invariant
                i <= N,
                n == N,
                word_shift + n <= usize::MAX,
                wi == W::spec_width(),
                wi >= 8,
                rotated@.len() == N,
                bit_shift < wi,
                forall|k: int|
                    0 <= k < i ==> #[trigger] rotated@[k].bits() == seq_rotr(
                        self.words()[(k + word_shift) % n].bits(),
                        bit_shift as int,
                    ),
            decreases N - i,
        {
            rotated[i] = self.le_words[(i + word_shift) % N].rotate_right(bit_shift);
            i = i + 1;
        }
        let ghost target = seq_rotr(self.cbits(), shift as int);
        if bit_shift == 0 {
            let r = Self { le_words: rotated };
            proof {
                assert forall|i: int, j: int|
                    0 <= i < N && 0 <= j < W::spec_width() implies #[trigger] r.words()[i].bits()[j]
                    == target[i * (W::spec_width() as int) + j] by {
                    self.lemma_cbit(i, j);
                    lemma_rot_pos(i + word_shift, j, 0, wi, n);
                    assert(i * wi + j + shift == (i + word_shift) * wi + j) by (nonlinear_arith)
                        requires
                            shift == wi * word_shift + 0,
                    ;
                    vstd::arithmetic::mul::lemma_mul_is_commutative(wi, n);
                    let a = (i + word_shift) % n;
                    self.lemma_cbit(a, j);
                    self.words()[a].lemma_word_bits();
                    vstd::arithmetic::div_mod::lemma_small_mod(j as nat, wi as nat);
                    assert(r.words()[i].bits()[j] == self.words()[a].bits()[j]);
                }
                Self::lemma_cbits_from_words(r, target);
            }
            return r;
        }
        let m = W::max_word();
        let lo_mask: W = m.unbounded_shr(bit_shift);
        let hi_mask: W = lo_mask.not();
        let mut res = rotated;
        let mut i: usize = 0;
        proof {
            m.lemma_word_bits();
            crate::word::word::lemma_all_bits(W::spec_width());
            crate::word::bitseq::lemma_bits_val_injective(
                m.bits(),
                seq_not(seq_zeros(W::spec_width())),
            );
        }
        while i < N
            invariant
                i <= N,
                n == N,
                n + 1 <= usize::MAX,
                wi == W::spec_width(),
                wi >= 8,
                0 < bit_shift < wi,
                rotated@.len() == N,
                forall|j: int| 0 <= j < wi ==> #[trigger] lo_mask.bits()[j] == (j + bit_shift < wi),
                forall|j: int| 0 <= j < wi ==> #[trigger] hi_mask.bits()[j] == (j + bit_shift >= wi),
                forall|k: int|
                    0 <= k < i ==> #[trigger] res@[k].bits() == seq_xor(
                        seq_and(rotated@[k].bits(), lo_mask.bits()),
                        seq_and(rotated@[(k + 1) % n].bits(), hi_mask.bits()),
                    ),
            decreases N - i,
        {
            let a = rotated[i].bitand(lo_mask);
            let b = rotated[(i + 1) % N].bitand(hi_mask);
            res[i] = a.bitxor(b);
            i = i + 1;
        }
        let r = Self { le_words: res };
        proof {
            assert forall|i: int, j: int|
                0 <= i < N && 0 <= j < W::spec_width() implies #[trigger] r.words()[i].bits()[j]
                == target[i * (W::spec_width() as int) + j] by {
                self.lemma_cbit(i, j);
                vstd::arithmetic::mul::lemma_mul_is_commutative(wi, n);
                let i1 = (i + 1) % n;
                vstd::arithmetic::div_mod::lemma_mod_pos_bound(i + 1, n);
                rotated@[i].lemma_word_bits();
                rotated@[i1].lemma_word_bits();
                if j + bit_shift < wi {
                    lemma_rot_pos(i + word_shift, j + bit_shift, 0, wi, n);
                    assert(i * wi + j + shift == (i + word_shift) * wi + (j + bit_shift))
                        by (nonlinear_arith)
                        requires
                            shift == wi * word_shift + bit_shift,
                    ;
                    vstd::arithmetic::div_mod::lemma_small_mod((j + bit_shift) as nat, wi as nat);
                    let a = (i + word_shift) % n;
                    self.words()[a].lemma_word_bits();
                    self.lemma_cbit(a, j + bit_shift);
                } else {
                    lemma_rot_pos(i + word_shift + 1, j + bit_shift - wi, 0, wi, n);
                    assert(i * wi + j + shift == (i + word_shift + 1) * wi + (j + bit_shift - wi))
                        by (nonlinear_arith)
                        requires
                            shift == wi * word_shift + bit_shift,
                    ;
                    assert((j + bit_shift) % wi == j + bit_shift - wi) by {
                        vstd::arithmetic::div_mod::lemma_fundamental_div_mod_converse(
                            j + bit_shift,
                            wi,
                            1,
                            j + bit_shift - wi,
                        );
                    }
                    assert((i1 + word_shift) % n == (i + 1 + word_shift) % n) by {
                        vstd::arithmetic::div_mod::lemma_fundamental_div_mod(i + 1, n);
                        vstd::arithmetic::div_mod::lemma_mod_multiples_vanish(
                            (i + 1) / n,
                            i1 + word_shift,
                            n,
                        );
                        assert(n * ((i + 1) / n) + (i1 + word_shift) == i + 1 + word_shift);
                    }
                    let a = (i1 + word_shift) % n;
                    self.words()[a].lemma_word_bits();
                    self.lemma_cbit(a, j + bit_shift - wi);
                }
            }
            Self::lemma_cbits_from_words(r, target);
        }
        r
    }
}

impl<W: Word, const N: usize> CompositeWord<W, N> {
    /// Unbounded left shift operation: zero when the shift amount reaches the width.
    pub fn unbounded_shl(self, shift: usize) -> (r: Self)
        requires
            N > 0,
            W::spec_width() * N <= usize::MAX,
        ensures
            r.cbits() == seq_shl(self.cbits(), shift as int),
    {
        proof {
            W::lemma_width();
        }
        let cw = Self::width();
        if shift >= cw {
            let z = Self::zero();
            proof {
                assert(z.cbits() =~= seq_shl(self.cbits(), shift as int));
            }
            return z;
        }
        let w = W::width();
        let ghost wi = w as int;
        let ghost n = N as int;
        let word_shift = shift / w;
        let bit_shift = shift % w;
        proof {
            vstd::arithmetic::div_mod::lemma_fundamental_div_mod(shift as int, wi);
            vstd::arithmetic::mul::lemma_mul_is_commutative(wi, n);
            lemma_limb_bounds(shift as int, wi, n);
        }
        let rot = self.rotate_left(shift);
        let mut res = rot.le_words;
        let z = W::zero();
        let mut i: usize = 0;
        while i < word_shift
            invariant
                i <= word_shift < N,
                z.value() == 0,
                res@.len() == N,
                forall|k: int| 0 <= k < i ==> #[trigger] res@[k] == z,
                forall|k: int| i <= k < N ==> #[trigger] res@[k] == rot.words()[k],
            decreases word_shift - i,
        {
            res[i] = z;
            i = i + 1;
        }
        let m = W::max_word();
        let hi_mask: W = m.unbounded_shl(bit_shift);
        if bit_shift > 0 {
            res[word_shift] = res[word_shift].bitand(hi_mask);
        }
        let r = Self { le_words: res };
        proof {
            let target = seq_shl(self.cbits(), shift as int);
            z.lemma_zero_bits();
            m.lemma_word_bits();
            crate::word::word::lemma_all_bits(W::spec_width());
            crate::word::bitseq::lemma_bits_val_injective(
                m.bits(),
                seq_not(seq_zeros(W::spec_width())),
            );
            assert forall|i: int, j: int|
                0 <= i < N && 0 <= j < W::spec_width() implies #[trigger] r.words()[i].bits()[j]
                == target[i * (W::spec_width() as int) + j] by {
                self.lemma_cbit(i, j);
                rot.lemma_cbit(i, j);
                rot.words()[i].lemma_word_bits();
                hi_mask.lemma_word_bits();
                let k = i * wi + j;
                if i == word_shift && bit_shift > 0 {
                    assert(hi_mask.bits()[j] == (j >= bit_shift));
                    assert(r.words()[i].bits()[j] == (rot.words()[i].bits()[j] && j >= bit_shift));
                } else if i >= word_shift {
                    assert(r.words()[i] == rot.words()[i]);
                } else {
                    assert(r.words()[i] == z);
                }
                if i < word_shift {
                    assert((i + 1) * wi <= word_shift * wi) by (nonlinear_arith)
                        requires
                            i + 1 <= word_shift,
                            wi >= 0,
                    ;
                    assert((i + 1) * wi == i * wi + wi) by (nonlinear_arith);
                    assert(wi * word_shift == word_shift * wi) by (nonlinear_arith);
                } else {
                    if i == word_shift {
                        assert(k - shift == j - bit_shift) by (nonlinear_arith)
                            requires
                                k == i * wi + j,
                                i == word_shift,
                                shift == wi * word_shift + bit_shift,
                        ;
                    } else {
                        assert(i * wi >= (word_shift + 1) * wi) by (nonlinear_arith)
                            requires
                                i >= word_shift + 1,
                                wi >= 0,
                        ;
                        assert((word_shift + 1) * wi == wi * word_shift + wi) by (nonlinear_arith);
                    }
                    if k >= shift {
                        vstd::arithmetic::div_mod::lemma_small_mod(
                            (k - shift) as nat,
                            Self::spec_cwidth(),
                        );
                    }
                }
            }
            Self::lemma_cbits_from_words(r, target);
        }
        r
    }

    /// Unbounded right shift operation: zero when the shift amount reaches the width.
    pub fn unbounded_shr(self, shift: usize) -> (r: Self)
        requires
            N > 0,
            W::spec_width() * N <= usize::MAX,
        ensures
            r.cbits() == seq_shr(self.cbits(), shift as int),
    {
        proof {
            W::lemma_width();
        }
        let cw = Self::width();
        if shift >= cw {
            let z = Self::zero();
            proof {
                assert(z.cbits() =~= seq_shr(self.cbits(), shift as int));
            }
            return z;
        }
        let w = W::width();
        let ghost wi = w as int;
        let ghost n = N as int;
        let word_shift = shift / w;
        let bit_shift = shift % w;
        proof {
            vstd::arithmetic::div_mod::lemma_fundamental_div_mod(shift as int, wi);
            vstd::arithmetic::mul::lemma_mul_is_commutative(wi, n);
            lemma_limb_bounds(shift as int, wi, n);
            vstd::arithmetic::mul::lemma_mul_inequality(2, wi, n);
        }
        let rot = self.rotate_right(shift);
        let mut res = rot.le_words;
        let z = W::zero();
        let mut i: usize = 0;
        while i < word_shift
            invariant
                i <= word_shift < N,
                z.value() == 0,
                res@.len() == N,
                forall|k: int| N - i <= k < N ==> #[trigger] res@[k] == z,
                forall|k: int| 0 <= k < N - i ==> #[trigger] res@[k] == rot.words()[k],
            decreases word_shift - i,
        {
            res[N - 1 - i] = z;
            i = i + 1;
        }
        let m = W::max_word();
        let lo_mask: W = m.unbounded_shr(bit_shift);
        if bit_shift > 0 {
            res[N - 1 - word_shift] = res[N - 1 - word_shift].bitand(lo_mask);
        }
        let r = Self { le_words: res };
        proof {
            let target = seq_shr(self.cbits(), shift as int);
            z.lemma_zero_bits();
            m.lemma_word_bits();
            crate::word::word::lemma_all_bits(W::spec_width());
            crate::word::bitseq::lemma_bits_val_injective(
                m.bits(),
                seq_not(seq_zeros(W::spec_width())),
            );
            assert forall|i: int, j: int|
                0 <= i < N && 0 <= j < W::spec_width() implies #[trigger] r.words()[i].bits()[j]
                == target[i * (W::spec_width() as int) + j] by {
                self.lemma_cbit(i, j);
                rot.lemma_cbit(i, j);
                rot.words()[i].lemma_word_bits();
                lo_mask.lemma_word_bits();
                let k = i * wi + j;
                if i == n - 1 - word_shift && bit_shift > 0 {
                    assert(lo_mask.bits()[j] == (j + bit_shift < wi));
                    assert(r.words()[i].bits()[j] == (rot.words()[i].bits()[j] && j + bit_shift < wi));
                } else if i <= n - 1 - word_shift {
                    assert(r.words()[i] == rot.words()[i]);
                } else {
                    assert(r.words()[i] == z);
                }
                if i > n - 1 - word_shift {
                    assert(i * wi >= (n - word_shift) * wi) by (nonlinear_arith)
                        requires
                            i >= n - word_shift,
                            wi >= 0,
                    ;
                    assert((n - word_shift) * wi == n * wi - wi * word_shift) by (nonlinear_arith);
                } else {
                    if i == n - 1 - word_shift {
                        assert(k + shift == n * wi - wi + j + bit_shift) by (nonlinear_arith)
                            requires
                                k == i * wi + j,
                                i == n - 1 - word_shift,
                                shift == wi * word_shift + bit_shift,
                        ;
                    } else {
                        assert(i * wi <= (n - 2 - word_shift) * wi) by (nonlinear_arith)
                            requires
                                i <= n - 2 - word_shift,
                                wi >= 0,
                        ;
                        assert((n - 2 - word_shift) * wi == n * wi - 2 * wi - wi * word_shift)
                            by (nonlinear_arith);
                    }
                    if k + shift < n * wi {
                        vstd::arithmetic::div_mod::lemma_small_mod(
                            (k + shift) as nat,
                            Self::spec_cwidth(),
                        );
                    }
                }
            }
            Self::lemma_cbits_from_words(r, target);
        }
        r
    }

    /// Overflowing left shift: the shifted word and the bits shifted out of it.
    pub fn overflowing_shl(self, shift: usize) -> (r: (Self, Self))
        requires
            N > 0,
            2 * W::spec_width() * N <= usize::MAX,
        ensures
            r.0.cbits() == seq_shl(self.cbits(), shift as int),
            forall|k: int|
                0 <= k < Self::spec_cwidth() ==> #[trigger] r.1.cbits()[k] == (0 <= k
                    + Self::spec_cwidth() - shift < Self::spec_cwidth() && self.cbits()[k
                    + Self::spec_cwidth() - shift]),
    {
        proof {
            W::lemma_width();
            vstd::arithmetic::mul::lemma_mul_is_associative(2, W::spec_width() as int, N as int);
        }
        let cw = Self::width();
        if shift >= 2 * cw {
            let z = Self::zero();
            proof {
                assert(z.cbits() =~= seq_shl(self.cbits(), shift as int));
            }
            return (z, z);
        }
        if shift >= cw {
            let z = Self::zero();
            let hi = self.unbounded_shl(shift - cw);
            proof {
                assert(z.cbits() =~= seq_shl(self.cbits(), shift as int));
            }
            return (z, hi);
        }
        let pieces = self.rotate_left(shift);
        let mask_lo = Self::max_word().unbounded_shl(shift);
        let mask_hi = mask_lo.not();
        let lo = pieces.bitand(mask_lo);
        let hi = pieces.bitand(mask_hi);
        proof {
            let cwi = cw as int;
            assert forall|k: int| 0 <= k < cwi implies #[trigger] lo.cbits()[k] == seq_shl(
                self.cbits(),
                shift as int,
            )[k] by {
                if k >= shift {
                    vstd::arithmetic::div_mod::lemma_small_mod((k - shift) as nat, cw as nat);
                }
            }
            assert(lo.cbits() =~= seq_shl(self.cbits(), shift as int));
            assert forall|k: int| 0 <= k < cwi implies #[trigger] hi.cbits()[k] == (0 <= k + cwi
                - shift < cwi && self.cbits()[k + cwi - shift]) by {
                if k < shift {
                    vstd::arithmetic::div_mod::lemma_fundamental_div_mod_converse(
                        k - shift,
                        cwi,
                        -1,
                        k + cwi - shift,
                    );
                }
            }
        }
        (lo, hi)
    }
}

/// One step of shift-and-add multiplication modulo `m`: adding the shifted multiplicand when
/// bit `t` of the multiplier is set extends the product to the multiplier's low `t + 1` bits.
pub proof fn lemma_mul_step(a: nat, b: nat, t: nat, m: nat, acc: nat, st: nat, bit: bool)
    requires
        m > 0,
        acc == (a * (b % pow2(t))) % m,
        st == (a * pow2(t)) % m,
        bit == ((b / pow2(t)) % 2 == 1),
    ensures
        (acc + bool_nat(bit) * st) % m == (a * (b % pow2(t + 1))) % m,
{
    let p = pow2(t) as int;
    crate::word::bitseq::lemma_pow2_succ(t);
    vstd::arithmetic::div_mod::lemma_mod_breakdown(b as int, p, 2);
    let bt = (b as int / p) % 2;
    assert(bt == bool_nat(bit));
    let x = a * (b % pow2(t)) as int;
    let y = bool_nat(bit) * (a * p);
    assert(a * (b % pow2(t + 1)) as int == x + y) by (nonlinear_arith)
        requires
            (b % pow2(t + 1)) as int == p * bt + (b % pow2(t)) as int,
            bt == bool_nat(bit),
            x == a * (b % pow2(t)) as int,
            y == bool_nat(bit) * (a * p),
    ;
    let mi = m as int;
    vstd::arithmetic::div_mod::lemma_mul_mod_noop_right(bool_nat(bit) as int, a * p, mi);
    vstd::arithmetic::div_mod::lemma_add_mod_noop_right(acc as int, (bool_nat(bit) * st) as int, mi);
    vstd::arithmetic::div_mod::lemma_add_mod_noop(x, y, mi);
    vstd::arithmetic::div_mod::lemma_mod_mod(x, mi, 1);
    assert(x % mi % mi == x % mi) by {
        vstd::arithmetic::div_mod::lemma_mod_pos_bound(x, mi);
        vstd::arithmetic::div_mod::lemma_small_mod((x % mi) as nat, m);
    }
}

/// Doubling modulo `m` advances the shifted multiplicand by one position.
pub proof fn lemma_double_mod(a: nat, t: nat, m: nat)
    requires
        m > 0,
    ensures
        (((a * pow2(t)) % m) * 2) % m == (a * pow2(t + 1)) % m,
{
    crate::word::bitseq::lemma_pow2_succ(t);
    vstd::arithmetic::div_mod::lemma_mul_mod_noop_left((a * pow2(t)) as int, 2, m as int);
    assert((a * pow2(t)) * 2 == a * pow2(t + 1)) by (nonlinear_arith)
        requires
            pow2(t + 1) == 2 * pow2(t),
    ;
}

impl<W: Word, const N: usize> CompositeWord<W, N> {
    /// The least significant bit of a composite word is the parity of its value.
    pub proof fn lemma_lsb_value(self)
        requires
            N > 0,
        ensures
            self.cbits()[0] == (self.cvalue() % 2 == 1),
    {
        W::lemma_width();
        vstd::arithmetic::mul::lemma_mul_inequality(1, N as int, W::spec_width() as int);
        crate::word::bitseq::lemma_bits_val_lsb(self.cbits());
    }

    /// Wrapping multiplication, by shift-and-add over all the bits of the multiplier.
    pub fn wrapping_mul(self, rhs: Self) -> (r: Self)
        requires
            N > 0,
            W::spec_width() * N <= usize::MAX,
        ensures
            r.cvalue() == (self.cvalue() * rhs.cvalue()) % pow2(Self::spec_cwidth()),
    {
        let cw = Self::width();
        let ghost m = pow2(Self::spec_cwidth());
        let ghost x = self.cvalue();
        let ghost y = rhs.cvalue();
        let mut a = self;
        let mut b = rhs;
        let mut acc = Self::zero();
        let mut t: usize = 0;
        proof {
            vstd::arithmetic::power2::lemma_pow2_pos(Self::spec_cwidth());
            vstd::arithmetic::power2::lemma2_to64();
            crate::word::bitseq::lemma_bits_val_bound(self.cbits());
            vstd::arithmetic::div_mod::lemma_small_mod(x, m);
            assert(y % pow2(0) == 0) by {
                vstd::arithmetic::div_mod::lemma_fundamental_div_mod_converse(y as int, 1, y as int, 0);
            }
        }
        while t < cw
            invariant
                N > 0,
                W::spec_width() * N <= usize::MAX,
                cw == Self::spec_cwidth(),
                m == pow2(Self::spec_cwidth()),
                m > 0,
                x == self.cvalue(),
                y == rhs.cvalue(),
                t <= cw,
                acc.cvalue() == (x * (y % pow2(t as nat))) % m,
                a.cvalue() == (x * pow2(t as nat)) % m,
                b.cvalue() == y / pow2(t as nat),
            decreases cw - t,
        {
            let bit = b.lsb();
            proof {
                b.lemma_lsb_value();
                lemma_mul_step(x, y, t as nat, m, acc.cvalue(), a.cvalue(), bit);
                lemma_double_mod(x, t as nat, m);
                crate::word::bitseq::lemma_pow2_succ(t as nat);
                vstd::arithmetic::power2::lemma_pow2_pos(t as nat);
                vstd::arithmetic::div_mod::lemma_div_denominator(y as int, pow2(t as nat) as int, 2);
            }
            let ghost acc0 = acc.cvalue();
            if bit {
                acc = acc.wrapping_add(a);
                assert(acc.cvalue() == (acc0 + bool_nat(bit) * a.cvalue()) % m);
            } else {
                assert(acc0 < m) by {
                    vstd::arithmetic::div_mod::lemma_mod_pos_bound(
                        (x * (y % pow2(t as nat))) as int,
                        m as int,
                    );
                }
                proof {
                    vstd::arithmetic::div_mod::lemma_small_mod(acc0, m);
                }
                assert(acc.cvalue() == (acc0 + bool_nat(bit) * a.cvalue()) % m);
            }
            assert(acc.cvalue() == (x * (y % pow2((t + 1) as nat))) % m);
            let a1 = a.unbounded_shl(1);
            let b1 = b.unbounded_shr(1);
            proof {
                crate::word::bitseq::lemma_bits_val_shl(a.cbits(), 1);
                crate::word::bitseq::lemma_bits_val_shr(b.cbits(), 1);
                vstd::arithmetic::power2::lemma2_to64();
            }
            a = a1;
            b = b1;
            t = t + 1;
        }
        proof {
            crate::word::bitseq::lemma_bits_val_bound(rhs.cbits());
            vstd::arithmetic::div_mod::lemma_small_mod(y, m);
        }
        acc
    }
}

/// Exact form of one shift-and-add step: the product with the multiplier's low `t + 1` bits.
pub proof fn lemma_mul_bits_exact(x: nat, y: nat, t: nat, bit: bool)
    requires
        bit == ((y / pow2(t)) % 2 == 1),
    ensures
        x * (y % pow2(t + 1)) == x * (y % pow2(t)) + bool_nat(bit) * (x * pow2(t)),
{
    let p = pow2(t) as int;
    crate::word::bitseq::lemma_pow2_succ(t);
    vstd::arithmetic::div_mod::lemma_mod_breakdown(y as int, p, 2);
    let bt = (y as int / p) % 2;
    assert(bt == bool_nat(bit));
    assert(x * (y % pow2(t + 1)) == x * (y % pow2(t)) + bool_nat(bit) * (x * pow2(t)))
        by (nonlinear_arith)
        requires
            (y % pow2(t + 1)) as int == p * bt + (y % pow2(t)) as int,
            bt == bool_nat(bit),
            p == pow2(t),
    ;
}

/// A sum of two values below `m` is its remainder modulo `m` plus `m` when it overflows.
pub proof fn lemma_split_sum(a: nat, b: nat, m: nat)
    requires
        a < m,
        b < m,
    ensures
        a + b == (a + b) % m + bool_nat(a + b >= m) * m,
{
    crate::word::prim::lemma_mod_wrap((a + b) as int, m as int);
}

/// Doubling a `w`-bit value splits into the doubled value modulo `2^w` and its top bit.
pub proof fn lemma_double_split(v: nat, w: nat)
    requires
        w > 0,
        v < pow2(w),
    ensures
        2 * v == (2 * v) % pow2(w) + (v / pow2((w - 1) as nat)) * pow2(w),
        v / pow2((w - 1) as nat) <= 1,
{
    let p = pow2((w - 1) as nat) as int;
    crate::word::bitseq::lemma_pow2_succ((w - 1) as nat);
    vstd::arithmetic::div_mod::lemma_fundamental_div_mod(v as int, p);
    vstd::arithmetic::div_mod::lemma_mod_pos_bound(v as int, p);
    let q = v as int / p;
    let r = v as int % p;
    assert(2 * v == q * (2 * p) + 2 * r) by (nonlinear_arith)
        requires
            v == p * q + r,
    ;
    vstd::arithmetic::div_mod::lemma_fundamental_div_mod_converse(
        2 * v as int,
        2 * p,
        q,
        2 * r,
    );
    assert(q <= 1) by (nonlinear_arith)
        requires
            v == p * q + r,
            r >= 0,
            v < 2 * p,
            p > 0,
    ;
}

impl<W: Word, const N: usize> CompositeWord<W, N> {
    /// Wide multiplication: the low and high halves of the full product.
    pub fn wide_mul(self, rhs: Self) -> (r: (Self, Self))
        requires
            N > 0,
            2 * W::spec_width() * N <= usize::MAX,
        ensures
            r.0.cvalue() + r.1.cvalue() * pow2(Self::spec_cwidth()) == self.cvalue()
                * rhs.cvalue(),
    {
        proof {
            W::lemma_width();
            vstd::arithmetic::mul::lemma_mul_is_associative(2, W::spec_width() as int, N as int);
            vstd::arithmetic::mul::lemma_mul_inequality(1, N as int, W::spec_width() as int);
        }
        let cw = Self::width();
        let ghost m = pow2(Self::spec_cwidth());
        let ghost x = self.cvalue();
        let ghost y = rhs.cvalue();
        let z = Self::zero();
        let mut acc_hi = z;
        let mut acc_lo = z;
        let mut add_hi = z;
        let mut add_lo = self;
        let mut b = rhs;
        let mut t: usize = 0;
        proof {
            vstd::arithmetic::power2::lemma_pow2_pos(Self::spec_cwidth());
            vstd::arithmetic::power2::lemma2_to64();
            crate::word::bitseq::lemma_bits_val_bound(self.cbits());
            crate::word::bitseq::lemma_bits_val_bound(rhs.cbits());
            assert(y % pow2(0) == 0) by {
                vstd::arithmetic::div_mod::lemma_fundamental_div_mod_converse(y as int, 1, y as int, 0);
            }
        }
        while t < cw
            invariant
                N > 0,
                2 * W::spec_width() * N <= usize::MAX,
                cw == Self::spec_cwidth(),
                cw > 0,
                m == pow2(Self::spec_cwidth()),
                m > 0,
                z.cvalue() == 0,
                x == self.cvalue(),
                y == rhs.cvalue(),
                x < m,
                y < m,
                t <= cw,
                acc_lo.cvalue() + acc_hi.cvalue() * m == x * (y % pow2(t as nat)),
                add_lo.cvalue() + add_hi.cvalue() * m == x * pow2(t as nat),
                b.cvalue() == y / pow2(t as nat),
            decreases cw - t,
        {
            let bit = b.lsb();
            let ghost t0 = t as nat;
            proof {
                b.lemma_lsb_value();
                lemma_mul_bits_exact(x, y, t0, bit);
                crate::word::bitseq::lemma_pow2_succ(t0);
                vstd::arithmetic::power2::lemma_pow2_pos(t0);
                vstd::arithmetic::div_mod::lemma_div_denominator(y as int, pow2(t0) as int, 2);
                crate::word::bitseq::lemma_bits_val_bound(acc_lo.cbits());
                crate::word::bitseq::lemma_bits_val_bound(acc_hi.cbits());
                crate::word::bitseq::lemma_bits_val_bound(add_lo.cbits());
                crate::word::bitseq::lemma_bits_val_bound(add_hi.cbits());
            }
            let xl = if bit {
                add_lo
            } else {
                z
            };
            let xh = if bit {
                add_hi
            } else {
                z
            };
            let (lo1, carry) = acc_lo.overflowing_add(xl);
            let hi_sum = acc_hi.wrapping_add(xh);
            let hi1 = hi_sum.wrapping_add(Self::from_bool(carry));
            proof {
                let total = x * (y % pow2(t0 + 1));
                assert(total == acc_lo.cvalue() + xl.cvalue() + (acc_hi.cvalue() + xh.cvalue())
                    * m) by (nonlinear_arith)
                    requires
                        total == x * (y % pow2(t0)) + bool_nat(bit) * (x * pow2(t0)),
                        acc_lo.cvalue() + acc_hi.cvalue() * m == x * (y % pow2(t0)),
                        add_lo.cvalue() + add_hi.cvalue() * m == x * pow2(t0),
                        xl.cvalue() == bool_nat(bit) * add_lo.cvalue(),
                        xh.cvalue() == bool_nat(bit) * add_hi.cvalue(),
                ;
                lemma_split_sum(acc_lo.cvalue(), xl.cvalue(), m);
                vstd::arithmetic::power2::lemma_pow2_pos(t0 + 1);
                vstd::arithmetic::div_mod::lemma_mod_decreases(y, pow2(t0 + 1));
                let yp = y % pow2(t0 + 1);
                assert(total < m * m) by (nonlinear_arith)
                    requires
                        total == x * yp,
                        x < m,
                        yp < m,
                        m > 0,
                ;
                let hs = acc_hi.cvalue() + xh.cvalue() + bool_nat(carry);
                assert(total == lo1.cvalue() + hs * m) by (nonlinear_arith)
                    requires
                        total == acc_lo.cvalue() + xl.cvalue() + (acc_hi.cvalue() + xh.cvalue()) * m,
                        acc_lo.cvalue() + xl.cvalue() == lo1.cvalue() + bool_nat(carry) * m,
                        hs == acc_hi.cvalue() + xh.cvalue() + bool_nat(carry),
                ;
                assert(hs < m) by (nonlinear_arith)
                    requires
                        total == lo1.cvalue() + hs * m,
                        total < m * m,
                        m > 0,
                ;
                vstd::arithmetic::div_mod::lemma_small_mod(
                    (acc_hi.cvalue() + xh.cvalue()) as nat,
                    m,
                );
                vstd::arithmetic::div_mod::lemma_small_mod(hs as nat, m);
            }
            let (lo2, hl) = add_lo.overflowing_shl(1);
            let hi_sh = add_hi.unbounded_shl(1);
            let hi2 = hi_sh.bitxor(hl);
            proof {
                let cwn = Self::spec_cwidth();
                crate::word::bitseq::lemma_bits_val_shl(add_lo.cbits(), 1);
                crate::word::bitseq::lemma_bits_val_shl(add_hi.cbits(), 1);
                assert(hl.cbits() =~= crate::word::bitseq::seq_shr(
                    add_lo.cbits(),
                    (cwn - 1) as int,
                ));
                crate::word::bitseq::lemma_bits_val_shr(add_lo.cbits(), (cwn - 1) as nat);
                lemma_double_split(add_lo.cvalue(), cwn);
                assert(seq_xor(hi_sh.cbits(), hl.cbits()) =~= seq_or(hi_sh.cbits(), hl.cbits()));
                crate::word::bitseq::lemma_bits_val_or_disjoint(hi_sh.cbits(), hl.cbits());
                assert(add_hi.cvalue() < pow2(t0)) by (nonlinear_arith)
                    requires
                        add_lo.cvalue() + add_hi.cvalue() * m == x * pow2(t0),
                        x < m,
                        pow2(t0) > 0,
                ;
                vstd::arithmetic::power2::lemma_pow2_strictly_increases(t0, cwn);
                assert(pow2(cwn) == 2 * pow2((cwn - 1) as nat)) by {
                    crate::word::bitseq::lemma_pow2_succ((cwn - 1) as nat);
                }
                if t0 + 1 < cwn {
                    vstd::arithmetic::power2::lemma_pow2_strictly_increases(t0 + 1, cwn);
                }
                vstd::arithmetic::power2::lemma2_to64();
                vstd::arithmetic::div_mod::lemma_small_mod(2 * add_hi.cvalue(), m);
                assert(lo2.cvalue() + hi2.cvalue() * m == x * pow2(t0 + 1)) by (nonlinear_arith)
                    requires
                        lo2.cvalue() == (add_lo.cvalue() * 2) % m,
                        2 * add_lo.cvalue() == (2 * add_lo.cvalue()) % m + hl.cvalue() * m,
                        hi2.cvalue() == 2 * add_hi.cvalue() + hl.cvalue(),
                        add_lo.cvalue() + add_hi.cvalue() * m == x * pow2(t0),
                        pow2(t0 + 1) == 2 * pow2(t0),
                ;
            }
            let b1 = b.unbounded_shr(1);
            proof {
                crate::word::bitseq::lemma_bits_val_shr(b.cbits(), 1);
            }
            acc_lo = lo1;
            acc_hi = hi1;
            add_lo = lo2;
            add_hi = hi2;
            b = b1;
            t = t + 1;
        }
        proof {
            vstd::arithmetic::div_mod::lemma_small_mod(y, m);
        }
        (acc_lo, acc_hi)
    }
}

impl<W: Word, const N: usize> CompositeWord<W, N> {
    /// Bit-reversal operation.
    pub fn reverse_bits(self) -> (r: Self)
        ensures
            r.cbits() == self.cbits().reverse(),
    {
        let rev = reverse_array(self.le_words);
        let mut res = rev;
        let mut i: usize = 0;
        while i < N
            invariant
                i <= N,
                rev@ == self.words().reverse(),
                res@.len() == N,
                forall|k: int| 0 <= k < i ==> #[trigger] res@[k].bits() == rev@[k].bits().reverse(),
            decreases N - i,
        {
            res[i] = rev[i].reverse_bits();
            i = i + 1;
        }
        let r = Self { le_words: res };
        proof {
            W::lemma_width();
            let w = W::spec_width() as int;
            let n = N as int;
            let target = self.cbits().reverse();
            assert forall|i: int, j: int|
                0 <= i < N && 0 <= j < W::spec_width() implies #[trigger] r.words()[i].bits()[j]
                == target[i * (W::spec_width() as int) + j] by {
                self.lemma_cbit(n - 1 - i, w - 1 - j);
                r.lemma_cbit(i, j);
                self.words()[n - 1 - i].lemma_word_bits();
                assert((n - 1 - i) * w + (w - 1 - j) == n * w - 1 - (i * w + j)) by (nonlinear_arith);
                vstd::arithmetic::mul::lemma_mul_is_commutative(w, n);
            }
            Self::lemma_cbits_from_words(r, target);
        }
        r
    }

    /// Byte-reversal operation: the words in reverse order, each with its bytes reversed.
    pub fn swap_bytes(self) -> (r: Self)
        ensures
            forall|i: int|
                0 <= i < N ==> #[trigger] r.words()[i].value() == le_bytes_val(
                    nat_le_bytes(self.words()[N - 1 - i].value(), W::spec_width() / 8).reverse(),
                ),
            r.cbits() == seq_swap_bytes(self.cbits()),
    {
        let rev = reverse_array(self.le_words);
        let mut res = rev;
        let mut i: usize = 0;
        while i < N
            invariant
                i <= N,
                rev@ == self.words().reverse(),
                res@.len() == N,
                forall|k: int|
                    0 <= k < i ==> #[trigger] res@[k].value() == le_bytes_val(
                        nat_le_bytes(rev@[k].value(), W::spec_width() / 8).reverse(),
                    ),
            decreases N - i,
        {
            res[i] = rev[i].swap_bytes();
            i = i + 1;
        }
        let r = Self { le_words: res };
        proof {
            Self::lemma_swap_bytes_cbits(self, r);
        }
        r
    }

    /// The bits of a composite word whose words are those of `c` in reverse order, each with
    /// its bytes reversed, are the bits of `c` with its bytes reversed.
    pub proof fn lemma_swap_bytes_cbits(c: Self, r: Self)
        requires
            forall|i: int|
                0 <= i < N ==> #[trigger] r.words()[i].value() == le_bytes_val(
                    nat_le_bytes(c.words()[N - 1 - i].value(), W::spec_width() / 8).reverse(),
                ),
        ensures
            r.cbits() == seq_swap_bytes(c.cbits()),
    {
        W::lemma_width();
        let w = W::spec_width() as int;
        let nb = w / 8;
        let n = N as int;
        let target = seq_swap_bytes(c.cbits());
        vstd::arithmetic::mul::lemma_mul_is_commutative(w, n);
        assert forall|i: int, j: int|
            0 <= i < N && 0 <= j < W::spec_width() implies #[trigger] r.words()[i].bits()[j]
            == target[i * w + j] by {
            let cw = c.words()[n - 1 - i];
            r.words()[i].lemma_repr();
            cw.lemma_repr();
            lemma_byte_swap_bit(cw.value(), nb as nat, j as nat);
            let t = 8 * (nb - 1 - j / 8) + j % 8;
            assert(0 <= t < w);
            c.lemma_cbit(n - 1 - i, t);
            r.lemma_cbit(i, j);
            let k = i * w + j;
            assert(k == 8 * (i * nb + j / 8) + j % 8) by (nonlinear_arith)
                requires
                    w == 8 * nb,
                    j == 8 * (j / 8) + j % 8,
                    k == i * w + j,
            ;
            vstd::arithmetic::div_mod::lemma_fundamental_div_mod_converse(k, 8, i * nb + j / 8, j % 8);
            assert((n * w) / 8 == n * nb) by (nonlinear_arith)
                requires
                    w == 8 * nb,
            ;
            assert(8 * ((n * w) / 8 - 1 - k / 8) + k % 8 == (n - 1 - i) * w + t) by (nonlinear_arith)
                requires
                    w == 8 * nb,
                    (n * w) / 8 == n * nb,
                    k / 8 == i * nb + j / 8,
                    k % 8 == j % 8,
                    t == 8 * (nb - 1 - j / 8) + j % 8,
            ;
        }
        Self::lemma_cbits_from_words(r, target);
    }

    /// Count of leading zeros in this composite word.
    pub fn leading_zeros(self) -> (r: usize)
        requires
            W::spec_width() * N <= usize::MAX,
        ensures
            r <= Self::spec_cwidth(),
            forall|k: int|
                Self::spec_cwidth() - r <= k < Self::spec_cwidth() ==> !#[trigger] self.cbits()[k],
            r < Self::spec_cwidth() ==> self.cbits()[Self::spec_cwidth() - 1 - r],
    {
        proof {
            W::lemma_width();
        }
        let w = W::width();
        let ghost wi = w as int;
        let ghost n = N as int;
        let mut count: usize = 0;
        let mut i: usize = 0;
        while i < N
            invariant
                i <= N,
                n == N,
                wi == W::spec_width(),
                w == wi,
                wi > 0,
                wi * n <= usize::MAX,
                count == i * wi,
                forall|k: int| (n - i) * wi <= k < n * wi ==> !#[trigger] self.cbits()[k],
            decreases N - i,
        {
            let word = self.le_words[N - 1 - i];
            let lz = word.leading_zeros();
            proof {
                word.lemma_word_bits();
                assert(i * wi + wi <= n * wi) by (nonlinear_arith)
                    requires
                        i < n,
                        wi > 0,
                ;
                assert((n - i) * wi == (n - 1 - i) * wi + wi) by (nonlinear_arith);
                assert(n * wi - count == (n - 1 - i) * wi + wi) by (nonlinear_arith)
                    requires
                        count == i * wi,
                ;
                vstd::arithmetic::mul::lemma_mul_is_commutative(wi, n);
            }
            if lz < w {
                proof {
                    self.lemma_cbit(n - 1 - i, wi - 1 - lz);
                    assert forall|k: int|
                        n * wi - (count + lz) <= k < n * wi implies !#[trigger] self.cbits()[k] by {
                        if k < (n - i) * wi {
                            let j = k - (n - 1 - i) * wi;
                            self.lemma_cbit(n - 1 - i, j);
                        }
                    }
                }
                return count + lz;
            }
            proof {
                assert forall|k: int| (n - (i + 1)) * wi <= k < n * wi implies !#[trigger] self.cbits()[k] by {
                    if k < (n - i) * wi {
                        let j = k - (n - 1 - i) * wi;
                        self.lemma_cbit(n - 1 - i, j);
                    }
                }
                assert((i + 1) * wi == i * wi + wi) by (nonlinear_arith);
            }
            count = count + w;
            i = i + 1;
        }
        proof {
            vstd::arithmetic::mul::lemma_mul_is_commutative(wi, n);
        }
        count
    }

    /// Count of leading ones in this composite word.
    pub fn leading_ones(self) -> (r: usize)
        requires
            W::spec_width() * N <= usize::MAX,
        ensures
            r <= Self::spec_cwidth(),
            forall|k: int|
                Self::spec_cwidth() - r <= k < Self::spec_cwidth() ==> #[trigger] self.cbits()[k],
            r < Self::spec_cwidth() ==> !self.cbits()[Self::spec_cwidth() - 1 - r],
    {
        proof {
            W::lemma_width();
        }
        let w = W::width();
        let ghost wi = w as int;
        let ghost n = N as int;
        let mut count: usize = 0;
        let mut i: usize = 0;
        while i < N
            invariant
                i <= N,
                n == N,
                wi == W::spec_width(),
                w == wi,
                wi > 0,
                wi * n <= usize::MAX,
                count == i * wi,
                forall|k: int| (n - i) * wi <= k < n * wi ==> #[trigger] self.cbits()[k],
            decreases N - i,
        {
            let word = self.le_words[N - 1 - i];
            let lo = word.leading_ones();
            proof {
                word.lemma_word_bits();
                assert(i * wi + wi <= n * wi) by (nonlinear_arith)
                    requires
                        i < n,
                        wi > 0,
                ;
                assert((n - i) * wi == (n - 1 - i) * wi + wi) by (nonlinear_arith);
                assert(n * wi - count == (n - 1 - i) * wi + wi) by (nonlinear_arith)
                    requires
                        count == i * wi,
                ;
                vstd::arithmetic::mul::lemma_mul_is_commutative(wi, n);
            }
            if lo < w {
                proof {
                    self.lemma_cbit(n - 1 - i, wi - 1 - lo);
                    assert forall|k: int|
                        n * wi - (count + lo) <= k < n * wi implies #[trigger] self.cbits()[k] by {
                        if k < (n - i) * wi {
                            let j = k - (n - 1 - i) * wi;
                            self.lemma_cbit(n - 1 - i, j);
                        }
                    }
                }
                return count + lo;
            }
            proof {
                assert forall|k: int| (n - (i + 1)) * wi <= k < n * wi implies #[trigger] self.cbits()[k] by {
                    if k < (n - i) * wi {
                        let j = k - (n - 1 - i) * wi;
                        self.lemma_cbit(n - 1 - i, j);
                    }
                }
                assert((i + 1) * wi == i * wi + wi) by (nonlinear_arith);
            }
            count = count + w;
            i = i + 1;
        }
        proof {
            vstd::arithmetic::mul::lemma_mul_is_commutative(wi, n);
        }
        count
    }
}

impl<W: Word, const N: usize> CompositeWord<W, N> {
    /// Little-endian byte representation of each word, least significant word first.
    pub fn to_le_bytes(self) -> (r: Vec<Vec<u8>>)
        ensures
            r@.len() == N,
            forall|i: int|
                0 <= i < N ==> #[trigger] r@[i]@ == nat_le_bytes(
                    self.words()[i].value(),
                    W::spec_width() / 8,
                ),
    {
        let mut out: Vec<Vec<u8>> = Vec::new();
        let mut i: usize = 0;
        while i < N
            invariant
                i <= N,
                out@.len() == i,
                forall|k: int|
                    0 <= k < i ==> #[trigger] out@[k]@ == nat_le_bytes(
                        self.words()[k].value(),
                        W::spec_width() / 8,
                    ),
            decreases N - i,
        {
            out.push(self.le_words[i].to_le_bytes());
            i = i + 1;
        }
        out
    }

    /// Creates a composite word from the little-endian byte representation of each word,
    /// least significant word first.
    pub fn from_le_bytes(bytes: &Vec<Vec<u8>>) -> (r: Self)
        requires
            bytes@.len() == N,
            forall|i: int| 0 <= i < N ==> #[trigger] bytes@[i]@.len() == W::spec_width() / 8,
        ensures
            forall|i: int|
                0 <= i < N ==> #[trigger] r.words()[i].value() == le_bytes_val(bytes@[i]@),
    {
        let mut res = [W::zero(); N];
        let mut i: usize = 0;
        while i < N
            invariant
                i <= N,
                bytes@.len() == N,
                forall|k: int| 0 <= k < N ==> #[trigger] bytes@[k]@.len() == W::spec_width() / 8,
                res@.len() == N,
                forall|k: int| 0 <= k < i ==> #[trigger] res@[k].value() == le_bytes_val(bytes@[k]@),
            decreases N - i,
        {
            res[i] = W::from_le_bytes(bytes[i].as_slice());
            i = i + 1;
        }
        Self { le_words: res }
    }

    /// Big-endian byte representation of each word, most significant word first.
    pub fn to_be_bytes(self) -> (r: Vec<Vec<u8>>)
        ensures
            r@.len() == N,
            forall|i: int|
                0 <= i < N ==> #[trigger] r@[i]@ == nat_le_bytes(
                    self.words()[N - 1 - i].value(),
                    W::spec_width() / 8,
                ).reverse(),
    {
        let be = self.to_be_words();
        let mut out: Vec<Vec<u8>> = Vec::new();
        let mut i: usize = 0;
        while i < N
            invariant
                i <= N,
                be@ == self.words().reverse(),
                out@.len() == i,
                forall|k: int|
                    0 <= k < i ==> #[trigger] out@[k]@ == nat_le_bytes(
                        self.words()[N - 1 - k].value(),
                        W::spec_width() / 8,
                    ).reverse(),
            decreases N - i,
        {
            out.push(be[i].to_be_bytes());
            i = i + 1;
        }
        out
    }

    /// Creates a composite word from the big-endian byte representation of each word,
    /// most significant word first.
    pub fn from_be_bytes(bytes: &Vec<Vec<u8>>) -> (r: Self)
        requires
            bytes@.len() == N,
            forall|i: int| 0 <= i < N ==> #[trigger] bytes@[i]@.len() == W::spec_width() / 8,
        ensures
            forall|i: int|
                0 <= i < N ==> #[trigger] r.words()[i].value() == le_bytes_val(
                    bytes@[N - 1 - i]@.reverse(),
                ),
    {
        let mut be = [W::zero(); N];
        let mut i: usize = 0;
        while i < N
            invariant
                i <= N,
                bytes@.len() == N,
                forall|k: int| 0 <= k < N ==> #[trigger] bytes@[k]@.len() == W::spec_width() / 8,
                be@.len() == N,
                forall|k: int|
                    0 <= k < i ==> #[trigger] be@[k].value() == le_bytes_val(bytes@[k]@.reverse()),
            decreases N - i,
        {
            be[i] = W::from_be_bytes(bytes[i].as_slice());
            i = i + 1;
        }
        Self::from_be_words(be)
    }

    /// Applies the given function to each bit of this word,
    /// from least significant to most significant.
    pub fn map_bits<F: Fn(bool)>(self, f: F)
        requires
            W::spec_width() * N <= usize::MAX,
            forall|b: bool| f.requires((b,)),
    {
        let cw = Self::width();
        let mut i: usize = 0;
        while i < cw
            invariant
                forall|b: bool| f.requires((b,)),
            decreases cw - i,
        {
            f(self.bit_at(i));
            i = i + 1;
        }
    }
}

/// Types that can be converted to and from a [CompositeWord] of a given word type and width.
///
/// Used to allow uniform treatment of words, word arrays and composite words.
pub trait WordLike<W: Word, const N: usize>: Sized + Copy {
    /// The composite word this value stands for.
    spec fn as_word(self) -> CompositeWord<W, N>;

    /// Converts this value to a [CompositeWord] of the given word type and width.
    fn to_word(self) -> (r: CompositeWord<W, N>)
        ensures
            r == self.as_word(),
    ;

    /// Converts a [CompositeWord] of the given word type and width back to this value type.
    fn from_word(words: CompositeWord<W, N>) -> (r: Self)
        ensures
            r.as_word() == words,
    ;
}

impl WordLike<u8, 1> for u8 {
    closed spec fn as_word(self) -> CompositeWord<u8, 1> {
        CompositeWord { le_words: [self] }
    }

    fn to_word(self) -> (r: CompositeWord<u8, 1>) {
        CompositeWord { le_words: [self] }
    }

    fn from_word(words: CompositeWord<u8, 1>) -> (r: Self) {
        let r = words.le_words[0];
        proof {
            assert([r]@ =~= words.le_words@);
            assert([r] =~= words.le_words);
        }
        r
    }
}

impl WordLike<u16, 1> for u16 {
    closed spec fn as_word(self) -> CompositeWord<u16, 1> {
        CompositeWord { le_words: [self] }
    }

    fn to_word(self) -> (r: CompositeWord<u16, 1>) {
        CompositeWord { le_words: [self] }
    }

    fn from_word(words: CompositeWord<u16, 1>) -> (r: Self) {
        let r = words.le_words[0];
        proof {
            assert([r]@ =~= words.le_words@);
            assert([r] =~= words.le_words);
        }
        r
    }
}

impl WordLike<u32, 1> for u32 {
    closed spec fn as_word(self) -> CompositeWord<u32, 1> {
        CompositeWord { le_words: [self] }
    }

    fn to_word(self) -> (r: CompositeWord<u32, 1>) {
        CompositeWord { le_words: [self] }
    }

    fn from_word(words: CompositeWord<u32, 1>) -> (r: Self) {
        let r = words.le_words[0];
        proof {
            assert([r]@ =~= words.le_words@);
            assert([r] =~= words.le_words);
        }
        r
    }
}

impl WordLike<u64, 1> for u64 {
    closed spec fn as_word(self) -> CompositeWord<u64, 1> {
        CompositeWord { le_words: [self] }
    }

    fn to_word(self) -> (r: CompositeWord<u64, 1>) {
        CompositeWord { le_words: [self] }
    }

    fn from_word(words: CompositeWord<u64, 1>) -> (r: Self) {
        let r = words.le_words[0];
        proof {
            assert([r]@ =~= words.le_words@);
            assert([r] =~= words.le_words);
        }
        r
    }
}

impl WordLike<u128, 1> for u128 {
    closed spec fn as_word(self) -> CompositeWord<u128, 1> {
        CompositeWord { le_words: [self] }
    }

    fn to_word(self) -> (r: CompositeWord<u128, 1>) {
        CompositeWord { le_words: [self] }
    }

    fn from_word(words: CompositeWord<u128, 1>) -> (r: Self) {
        let r = words.le_words[0];
        proof {
            assert([r]@ =~= words.le_words@);
            assert([r] =~= words.le_words);
        }
        r
    }
}

impl<W: Word, const N: usize> WordLike<W, N> for [W; N] {
    closed spec fn as_word(self) -> CompositeWord<W, N> {
        CompositeWord { le_words: self }
    }

    fn to_word(self) -> (r: CompositeWord<W, N>) {
        CompositeWord { le_words: self }
    }

    fn from_word(words: CompositeWord<W, N>) -> (r: Self) {
        words.le_words
    }
}

/// The composite word an array stands for has the array's elements as its words.
pub proof fn lemma_array_as_word<W: Word, const N: usize>(a: [W; N])
    ensures
        a.as_word().words() == a@,
{
}

impl<W: Word, const N: usize> WordLike<W, N> for CompositeWord<W, N> {
    open spec fn as_word(self) -> CompositeWord<W, N> {
        self
    }

    fn to_word(self) -> (r: CompositeWord<W, N>) {
        self
    }

    fn from_word(words: CompositeWord<W, N>) -> (r: Self) {
        words
    }
}

} // verus!
