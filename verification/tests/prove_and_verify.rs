use zkboo::backend::backend::Backend;
use zkboo::backend::frontend::Frontend;
use zkboo::backend::hook::NoHook;
use zkboo::circuit::assertions::Assertions;
use zkboo::circuit::circuit::Circuit;
use zkboo::crypto::keccak::Keccak256Hasher;
use zkboo::crypto::prg::HashPRG;
use zkboo::executor::functions::exec;
use zkboo::executor::options::ExecOptions;
use zkboo::executor::word_pool::{WordPoolWrapper, WordSourceWrapper};
use zkboo::memory::memory_manager::FlexibleMemoryManager;
use zkboo::prover::functions::prove;
use zkboo::prover::proofs::collectors::OwnedResponseDataCollector;
use zkboo::prover::proofs::options::ProofOptions;
use zkboo::prover::views::word_pool::{WordTriplePoolWrapper, WordTripleSourceWrapper};
use zkboo::verifying::functions::verify;
use zkboo::verifying::replay::word_pool::{WordPairPoolWrapper, WordPairSourceWrapper};

type H = Keccak256Hasher;
type P = HashPRG<Keccak256Hasher>;
type S = [u8; 32];
type WP = WordPoolWrapper<WordSourceWrapper, FlexibleMemoryManager<u32>>;
type WTP = WordTriplePoolWrapper<WordTripleSourceWrapper, FlexibleMemoryManager<u32>>;
type WPP = WordPairPoolWrapper<WordPairSourceWrapper, FlexibleMemoryManager<u32>>;

/// Computes `(a + b) & c` and `a ^ rotl(b, 5)` on 32-bit inputs.
struct SmallCircuit {
    a: u32,
    b: u32,
    c: u32,
}

impl Circuit for SmallCircuit {
    fn exec<B: Backend>(&self, fe: &mut Frontend<B>) {
        let a = fe.input::<u32, 1, u32>(self.a);
        let b = fe.input::<u32, 1, u32>(self.b);
        let c = fe.input::<u32, 1, u32>(self.c);
        let a2 = a.clone(fe);
        let b2 = b.clone(fe);
        let s = a.wrapping_add(b, fe);
        let t = s.bitand(c, fe);
        fe.output(t);
        let r = b2.rotate_left(5, fe);
        let x = a2.bitxor(r, fe);
        fe.output(x);
    }
}

fn circuit() -> SmallCircuit {
    SmallCircuit { a: 0x1234_5678, b: 0x9abc_def0, c: 0x0ff0_f00f }
}

#[test]
fn exec_outputs_plain_values() {
    let out = exec::<SmallCircuit, WP, NoHook>(&circuit(), ExecOptions::new());
    let c = circuit();
    assert_eq!(out.u32, vec![c.a.wrapping_add(c.b) & c.c, c.a ^ c.b.rotate_left(5)]);
    assert!(out.u8.is_empty());
}

#[test]
fn honest_proof_verifies() {
    let out = exec::<SmallCircuit, WP, NoHook>(&circuit(), ExecOptions::new());
    let proof = prove::<SmallCircuit, H, P, P, S, OwnedResponseDataCollector<[u8; 32], S>, WTP, NoHook>(
        &circuit(),
        12,
        b"seed entropy",
        b"binding",
        ProofOptions::new(),
    );
    assert_eq!(proof.len(), 12);
    let res = verify::<SmallCircuit, H, P, S, WPP>(&circuit(), &out, b"binding", &proof);
    assert!(matches!(res, Ok(true)));
}

#[test]
fn proof_for_other_output_or_binding_is_rejected() {
    let out = exec::<SmallCircuit, WP, NoHook>(&circuit(), ExecOptions::new());
    let proof = prove::<SmallCircuit, H, P, P, S, OwnedResponseDataCollector<[u8; 32], S>, WTP, NoHook>(
        &circuit(),
        12,
        b"seed entropy",
        b"binding",
        ProofOptions::new(),
    );
    let res = verify::<SmallCircuit, H, P, S, WPP>(&circuit(), &out, b"other binding", &proof);
    assert!(matches!(res, Ok(false)));
    let mut wrong = out.clone();
    wrong.u32[0] ^= 1;
    let res = verify::<SmallCircuit, H, P, S, WPP>(&circuit(), &wrong, b"binding", &proof);
    assert!(matches!(res, Ok(false)));
}

#[test]
fn empty_proof_verifies_and_shape_mismatch_is_an_error() {
    let out = exec::<SmallCircuit, WP, NoHook>(&circuit(), ExecOptions::new());
    let empty = Vec::new();
    assert!(matches!(verify::<SmallCircuit, H, P, S, WPP>(&circuit(), &out, b"binding", &empty), Ok(true)));
    let proof = prove::<SmallCircuit, H, P, P, S, OwnedResponseDataCollector<[u8; 32], S>, WTP, NoHook>(
        &circuit(),
        3,
        b"seed entropy",
        b"binding",
        ProofOptions::new(),
    );
    let mut short = out.clone();
    short.u32.pop();
    assert!(verify::<SmallCircuit, H, P, S, WPP>(&circuit(), &short, b"binding", &proof).is_err());
}

/// Asserts that the low bit of `x` is set and that the low bit of `y` is clear.
struct AssertingCircuit {
    x: u8,
    y: u8,
}

impl Circuit for AssertingCircuit {
    fn exec<B: Backend>(&self, fe: &mut Frontend<B>) {
        let asserted = Assertions::scope(fe, |assertions, fe| {
            assert!(assertions.is_empty());
            let x = fe.input::<u8, 1, u8>(self.x);
            let y = fe.input::<u8, 1, u8>(self.y);
            let bx = x.lsb(fe);
            assertions.assert_holds(bx, fe);
            let by = y.lsb(fe).not(fe);
            by.assert_into(assertions, fe);
            !assertions.is_empty()
        });
        assert!(asserted);
    }
}

/// Opens an assertion scope and asserts nothing in it.
struct NoAssertionCircuit;

impl Circuit for NoAssertionCircuit {
    fn exec<B: Backend>(&self, fe: &mut Frontend<B>) {
        Assertions::scope(fe, |_assertions, _fe| ());
    }
}

#[test]
fn assertions_flag_is_one_when_all_hold() {
    let out = exec::<AssertingCircuit, WP, NoHook>(&AssertingCircuit { x: 0x03, y: 0x02 }, ExecOptions::new());
    assert_eq!(out.u8, vec![1u8]);
}

#[test]
fn assertions_flag_is_zero_when_one_fails() {
    let out = exec::<AssertingCircuit, WP, NoHook>(&AssertingCircuit { x: 0x02, y: 0x02 }, ExecOptions::new());
    assert_eq!(out.u8, vec![0u8]);
    let out = exec::<AssertingCircuit, WP, NoHook>(&AssertingCircuit { x: 0x01, y: 0x01 }, ExecOptions::new());
    assert_eq!(out.u8, vec![0u8]);
}

#[test]
fn assertions_without_condition_emit_one() {
    let out = exec::<NoAssertionCircuit, WP, NoHook>(&NoAssertionCircuit, ExecOptions::new());
    assert_eq!(out.u8, vec![1u8]);
}

#[test]
fn asserting_circuit_proof_verifies() {
    let c = AssertingCircuit { x: 0x07, y: 0x10 };
    let out = exec::<AssertingCircuit, WP, NoHook>(&c, ExecOptions::new());
    assert_eq!(out.u8, vec![1u8]);
    let proof = prove::<AssertingCircuit, H, P, P, S, OwnedResponseDataCollector<[u8; 32], S>, WTP, NoHook>(
        &c,
        8,
        b"seed entropy",
        b"binding",
        ProofOptions::new(),
    );
    let res = verify::<AssertingCircuit, H, P, S, WPP>(&c, &out, b"binding", &proof);
    assert!(matches!(res, Ok(true)));
}

/// Multiplies a 32-bit input and a 16-bit input made of two bytes by constants.
struct MulConstCircuit {
    x: u32,
    c: u32,
    y: [u8; 2],
    d: [u8; 2],
}

impl Circuit for MulConstCircuit {
    fn exec<B: Backend>(&self, fe: &mut Frontend<B>) {
        let x = fe.input::<u32, 1, u32>(self.x);
        let p = x.wrapping_mul_const(zkboo::word::composite::CompositeWord::<u32, 1>::from_le_words([self.c]), fe);
        fe.output(p);
        let y = fe.input::<u8, 2, _>(zkboo::word::composite::CompositeWord::<u8, 2>::from_le_words(self.y));
        let q = y.wrapping_mul_const(zkboo::word::composite::CompositeWord::<u8, 2>::from_le_words(self.d), fe);
        fe.output(q);
    }
}

#[test]
fn wrapping_mul_const_multiplies_modulo_width() {
    let c = MulConstCircuit { x: 0x1234_5678, c: 0x9abc_def1, y: [0x34, 0x12], d: [0x07, 0x01] };
    let out = exec::<MulConstCircuit, WP, NoHook>(&c, ExecOptions::new());
    assert_eq!(out.u32, vec![0x1234_5678u32.wrapping_mul(0x9abc_def1)]);
    let prod = 0x1234u16.wrapping_mul(0x0107);
    assert_eq!(out.u8, vec![(prod & 0xff) as u8, (prod >> 8) as u8]);
}

#[test]
fn wrapping_mul_const_by_zero_and_one() {
    let c = MulConstCircuit { x: 0xdead_beef, c: 0, y: [0xcd, 0xab], d: [0x01, 0x00] };
    let out = exec::<MulConstCircuit, WP, NoHook>(&c, ExecOptions::new());
    assert_eq!(out.u32, vec![0]);
    assert_eq!(out.u8, vec![0xcd, 0xab]);
}

#[test]
fn mul_const_circuit_proof_verifies() {
    let c = MulConstCircuit { x: 0x0bad_f00d, c: 0x0000_1001, y: [0x10, 0x20], d: [0x03, 0x00] };
    let out = exec::<MulConstCircuit, WP, NoHook>(&c, ExecOptions::new());
    let proof = prove::<MulConstCircuit, H, P, P, S, OwnedResponseDataCollector<[u8; 32], S>, WTP, NoHook>(
        &c,
        4,
        b"seed entropy",
        b"binding",
        ProofOptions::new(),
    );
    let res = verify::<MulConstCircuit, H, P, S, WPP>(&c, &out, b"binding", &proof);
    assert!(matches!(res, Ok(true)));
}

/// Shifts a 32-bit input left by a fixed amount, outputting the shifted word and the bits
/// shifted out.
struct ShlCircuit {
    x: u32,
    s: usize,
}

impl Circuit for ShlCircuit {
    fn exec<B: Backend>(&self, fe: &mut Frontend<B>) {
        let x = fe.input::<u32, 1, u32>(self.x);
        let (lo, hi) = x.overflowing_shl(self.s, fe);
        fe.output(lo);
        fe.output(hi);
    }
}

fn shl_outputs(x: u32, s: usize) -> Vec<u32> {
    exec::<ShlCircuit, WP, NoHook>(&ShlCircuit { x, s }, ExecOptions::new()).u32
}

#[test]
fn overflowing_shl_within_the_width() {
    assert_eq!(shl_outputs(0x8765_4321, 0), vec![0x8765_4321, 0]);
    assert_eq!(shl_outputs(0x8765_4321, 4), vec![0x7654_3210, 0x8]);
    assert_eq!(shl_outputs(0x8765_4321, 31), vec![0x8000_0000, 0x43b2_a190]);
}

#[test]
fn overflowing_shl_beyond_the_width() {
    assert_eq!(shl_outputs(0x8765_4321, 32), vec![0, 0x8765_4321]);
    assert_eq!(shl_outputs(0x8765_4321, 36), vec![0, 0x7654_3210]);
    assert_eq!(shl_outputs(0x8765_4321, 64), vec![0, 0]);
    assert_eq!(shl_outputs(0x8765_4321, 100), vec![0, 0]);
}

/// Multiplies two 32-bit inputs and one of them by a constant, outputting the low and high
/// halves of both products; the same for two 16-bit inputs made of two bytes.
struct WideMulCircuit {
    x: u32,
    y: u32,
    c: u32,
    a: [u8; 2],
    b: [u8; 2],
}

impl Circuit for WideMulCircuit {
    fn exec<B: Backend>(&self, fe: &mut Frontend<B>) {
        let x = fe.input::<u32, 1, u32>(self.x);
        let y = fe.input::<u32, 1, u32>(self.y);
        let x2 = fe.input::<u32, 1, u32>(self.x);
        let (lo, hi) = x.wide_mul(y, fe);
        fe.output(lo);
        fe.output(hi);
        let (clo, chi) = x2.wide_mul_const(zkboo::word::composite::CompositeWord::<u32, 1>::from_le_words([self.c]), fe);
        fe.output(clo);
        fe.output(chi);
        let a = fe.input::<u8, 2, _>(zkboo::word::composite::CompositeWord::<u8, 2>::from_le_words(self.a));
        let b = fe.input::<u8, 2, _>(zkboo::word::composite::CompositeWord::<u8, 2>::from_le_words(self.b));
        let (plo, phi) = a.wide_mul(b, fe);
        fe.output(plo);
        fe.output(phi);
    }
}

fn halves(p: u64) -> Vec<u32> {
    vec![(p & 0xffff_ffff) as u32, (p >> 32) as u32]
}

fn byte_halves(p: u32) -> Vec<u8> {
    vec![(p & 0xff) as u8, ((p >> 8) & 0xff) as u8, ((p >> 16) & 0xff) as u8, (p >> 24) as u8]
}

#[test]
fn wide_mul_gives_both_halves_of_the_product() {
    let c = WideMulCircuit { x: 0xfedc_ba98, y: 0x8765_4321, c: 0xffff_ffff, a: [0xff, 0xff], b: [0x34, 0x12] };
    let out = exec::<WideMulCircuit, WP, NoHook>(&c, ExecOptions::new());
    let mut expected = halves(0xfedc_ba98u64 * 0x8765_4321u64);
    expected.extend(halves(0xfedc_ba98u64 * 0xffff_ffffu64));
    assert_eq!(out.u32, expected);
    assert_eq!(out.u8, byte_halves(0xffffu32 * 0x1234u32));
}

#[test]
fn wide_mul_by_zero_and_one() {
    let c = WideMulCircuit { x: 0x1234_5678, y: 1, c: 0, a: [0x00, 0x00], b: [0xcd, 0xab] };
    let out = exec::<WideMulCircuit, WP, NoHook>(&c, ExecOptions::new());
    assert_eq!(out.u32, vec![0x1234_5678, 0, 0, 0]);
    assert_eq!(out.u8, vec![0, 0, 0, 0]);
}

#[test]
fn wide_mul_circuit_proof_verifies() {
    let c = WideMulCircuit { x: 0x0bad_f00d, y: 0xdead_beef, c: 0x8000_0001, a: [0x10, 0x20], b: [0x03, 0x80] };
    let out = exec::<WideMulCircuit, WP, NoHook>(&c, ExecOptions::new());
    let proof = prove::<WideMulCircuit, H, P, P, S, OwnedResponseDataCollector<[u8; 32], S>, WTP, NoHook>(
        &c,
        4,
        b"seed entropy",
        b"binding",
        ProofOptions::new(),
    );
    let res = verify::<WideMulCircuit, H, P, S, WPP>(&c, &out, b"binding", &proof);
    assert!(matches!(res, Ok(true)));
}

/// Multiplies two 32-bit inputs, keeping the low half of the product.
struct WrappingMulCircuit {
    x: u32,
    y: u32,
}

impl Circuit for WrappingMulCircuit {
    fn exec<B: Backend>(&self, fe: &mut Frontend<B>) {
        let x = fe.input::<u32, 1, u32>(self.x);
        let y = fe.input::<u32, 1, u32>(self.y);
        let p = x.wrapping_mul(y, fe);
        fe.output(p);
    }
}

#[test]
fn wrapping_mul_multiplies_modulo_width() {
    for (x, y) in [(0x1234_5678u32, 0x9abc_def1u32), (0xffff_ffff, 0xffff_ffff), (7, 0), (1, 0xdead_beef)] {
        let out = exec::<WrappingMulCircuit, WP, NoHook>(&WrappingMulCircuit { x, y }, ExecOptions::new());
        assert_eq!(out.u32, vec![x.wrapping_mul(y)]);
    }
}

/// Casts a 32-bit input to a byte and to a 64-bit word, and takes its lowest and highest bits.
struct CastCircuit {
    x: u32,
}

impl Circuit for CastCircuit {
    fn exec<B: Backend>(&self, fe: &mut Frontend<B>) {
        let x = fe.input::<u32, 1, u32>(self.x);
        let b = x.cast::<u8>(fe);
        fe.output(b);
        let x = fe.input::<u32, 1, u32>(self.x);
        let w = x.cast::<u64>(fe);
        fe.output(w);
        let x = fe.input::<u32, 1, u32>(self.x);
        let lo = x.lsb(fe);
        fe.output(lo.into());
        let x = fe.input::<u32, 1, u32>(self.x);
        let hi = x.msb(fe);
        fe.output(hi.into());
    }
}

#[test]
fn cast_truncates_and_extends() {
    let out = exec::<CastCircuit, WP, NoHook>(&CastCircuit { x: 0x8765_43a1 }, ExecOptions::new());
    assert_eq!(out.u64, vec![0x8765_43a1u64]);
    assert_eq!(out.u8, vec![0xa1, 1, 1]);
    let out = exec::<CastCircuit, WP, NoHook>(&CastCircuit { x: 0x7fff_ff00 }, ExecOptions::new());
    assert_eq!(out.u64, vec![0x7fff_ff00u64]);
    assert_eq!(out.u8, vec![0x00, 0, 0]);
}

#[test]
fn cast_circuit_proof_verifies() {
    let c = CastCircuit { x: 0xdead_beef };
    let out = exec::<CastCircuit, WP, NoHook>(&c, ExecOptions::new());
    let proof = prove::<CastCircuit, H, P, P, S, OwnedResponseDataCollector<[u8; 32], S>, WTP, NoHook>(
        &c,
        4,
        b"seed entropy",
        b"binding",
        ProofOptions::new(),
    );
    let res = verify::<CastCircuit, H, P, S, WPP>(&c, &out, b"binding", &proof);
    assert!(matches!(res, Ok(true)));
}

/// Outputs the bits of a 16-bit input at the given positions.
struct BitAtCircuit {
    x: u16,
    positions: Vec<usize>,
}

impl Circuit for BitAtCircuit {
    fn exec<B: Backend>(&self, fe: &mut Frontend<B>) {
        for &i in self.positions.iter() {
            let x = fe.input::<u16, 1, u16>(self.x);
            let b = x.bit_at(i, fe);
            fe.output(b.into());
        }
    }
}

#[test]
fn bit_at_reads_each_bit_and_false_beyond_the_width() {
    let positions: Vec<usize> = vec![0, 1, 2, 7, 8, 15, 16, 40];
    let out = exec::<BitAtCircuit, WP, NoHook>(&BitAtCircuit { x: 0x8105, positions }, ExecOptions::new());
    assert_eq!(out.u8, vec![1, 0, 1, 0, 1, 1, 0, 0]);
}

/// Compares two 32-bit inputs with each other, with zero and with a constant.
struct CompareCircuit {
    x: u32,
    y: u32,
    c: u32,
}

impl Circuit for CompareCircuit {
    fn exec<B: Backend>(&self, fe: &mut Frontend<B>) {
        let c = zkboo::word::composite::CompositeWord::<u32, 1>::from_le_words([self.c]);
        let x = fe.input::<u32, 1, u32>(self.x);
        let b = x.is_nonzero(fe);
        fe.output(b.into());
        let x = fe.input::<u32, 1, u32>(self.x);
        let b = x.is_zero(fe);
        fe.output(b.into());
        let x = fe.input::<u32, 1, u32>(self.x);
        let y = fe.input::<u32, 1, u32>(self.y);
        let b = x.ne(y, fe);
        fe.output(b.into());
        let x = fe.input::<u32, 1, u32>(self.x);
        let y = fe.input::<u32, 1, u32>(self.y);
        let b = x.eq(y, fe);
        fe.output(b.into());
        let x = fe.input::<u32, 1, u32>(self.x);
        let b = x.ne_const(c, fe);
        fe.output(b.into());
        let x = fe.input::<u32, 1, u32>(self.x);
        let b = x.eq_const(c, fe);
        fe.output(b.into());
    }
}

fn compare_outputs(x: u32, y: u32, c: u32) -> Vec<u8> {
    exec::<CompareCircuit, WP, NoHook>(&CompareCircuit { x, y, c }, ExecOptions::new()).u8
}

#[test]
fn zero_tests_and_equalities() {
    assert_eq!(compare_outputs(0, 0, 0), vec![0, 1, 0, 1, 0, 1]);
    assert_eq!(compare_outputs(1, 2, 1), vec![1, 0, 1, 0, 0, 1]);
    assert_eq!(compare_outputs(0x8000_0000, 0x8000_0000, 7), vec![1, 0, 0, 1, 1, 0]);
    assert_eq!(compare_outputs(0xffff_ffff, 0x7fff_ffff, 0xffff_ffff), vec![1, 0, 1, 0, 0, 1]);
}

#[test]
fn compare_circuit_proof_verifies() {
    let c = CompareCircuit { x: 0x1234, y: 0x1234, c: 0 };
    let out = exec::<CompareCircuit, WP, NoHook>(&c, ExecOptions::new());
    let proof = prove::<CompareCircuit, H, P, P, S, OwnedResponseDataCollector<[u8; 32], S>, WTP, NoHook>(
        &c,
        4,
        b"seed entropy",
        b"binding",
        ProofOptions::new(),
    );
    let res = verify::<CompareCircuit, H, P, S, WPP>(&c, &out, b"binding", &proof);
    assert!(matches!(res, Ok(true)));
}

/// Orders two 16-bit inputs with each other and with a constant.
struct OrderCircuit {
    x: u16,
    y: u16,
    c: u16,
}

impl Circuit for OrderCircuit {
    fn exec<B: Backend>(&self, fe: &mut Frontend<B>) {
        let c = zkboo::word::composite::CompositeWord::<u16, 1>::from_le_words([self.c]);
        let x = fe.input::<u16, 1, u16>(self.x);
        let y = fe.input::<u16, 1, u16>(self.y);
        let b = x.lt(y, fe);
        fe.output(b.into());
        let x = fe.input::<u16, 1, u16>(self.x);
        let y = fe.input::<u16, 1, u16>(self.y);
        let b = x.le(y, fe);
        fe.output(b.into());
        let x = fe.input::<u16, 1, u16>(self.x);
        let y = fe.input::<u16, 1, u16>(self.y);
        let b = x.gt(y, fe);
        fe.output(b.into());
        let x = fe.input::<u16, 1, u16>(self.x);
        let y = fe.input::<u16, 1, u16>(self.y);
        let b = x.ge(y, fe);
        fe.output(b.into());
        let x = fe.input::<u16, 1, u16>(self.x);
        let b = x.lt_const(c, fe);
        fe.output(b.into());
        let x = fe.input::<u16, 1, u16>(self.x);
        let b = x.le_const(c, fe);
        fe.output(b.into());
        let x = fe.input::<u16, 1, u16>(self.x);
        let b = x.gt_const(c, fe);
        fe.output(b.into());
        let x = fe.input::<u16, 1, u16>(self.x);
        let b = x.ge_const(c, fe);
        fe.output(b.into());
    }
}

fn order_outputs(x: u16, y: u16, c: u16) -> Vec<u8> {
    exec::<OrderCircuit, WP, NoHook>(&OrderCircuit { x, y, c }, ExecOptions::new()).u8
}

#[test]
fn unsigned_orderings() {
    assert_eq!(order_outputs(3, 5, 5), vec![1, 1, 0, 0, 1, 1, 0, 0]);
    assert_eq!(order_outputs(5, 5, 5), vec![0, 1, 0, 1, 0, 1, 0, 1]);
    assert_eq!(order_outputs(0xffff, 0x7fff, 0), vec![0, 0, 1, 1, 0, 0, 1, 1]);
    assert_eq!(order_outputs(0, 0xffff, 0xffff), vec![1, 1, 0, 0, 1, 1, 0, 0]);
}

#[test]
fn order_circuit_proof_verifies() {
    let c = OrderCircuit { x: 0x8000, y: 0x7fff, c: 0x8001 };
    let out = exec::<OrderCircuit, WP, NoHook>(&c, ExecOptions::new());
    let proof = prove::<OrderCircuit, H, P, P, S, OwnedResponseDataCollector<[u8; 32], S>, WTP, NoHook>(
        &c,
        4,
        b"seed entropy",
        b"binding",
        ProofOptions::new(),
    );
    let res = verify::<OrderCircuit, H, P, S, WPP>(&c, &out, b"binding", &proof);
    assert!(matches!(res, Ok(true)));
}
