use zkboo::crypto::hasher::{Digest, Hasher};
use zkboo::crypto::keccak::Keccak256Hasher;
use zkboo::crypto::prg::{HashPRG, PseudoRandomGenerator, RandomGenerator};
use zkboo::memory::allocset::AllocSet;
use zkboo::prover::challenge::challenge::{ChallengeGenerator, Party, PartyVec};
use zkboo::repetitions::Repetitions;
use zkboo::word::composite::CompositeWord;
use zkboo::word::words::Words;

fn hex(bytes: &[u8]) -> String {
    bytes.iter().map(|b| format!("{:02x}", b)).collect()
}

#[test]
fn repetitions_for_128_bits() {
    assert_eq!(Repetitions::for_pq_security_bits(128).count(), 438);
    assert_eq!(Repetitions::for_pq_security_bits(1).count(), 4);
    assert_eq!(Repetitions::exactly(7).count(), 7);
}

#[test]
fn keccak256_of_empty_input() {
    let mut h = Keccak256Hasher::new();
    let d = h.finalize();
    assert_eq!(
        hex(d.as_slice()),
        "c5d2460186f7233c927e7db2dcc703c0e500b653ca82273b7bfad8045d85a470"
    );
}

#[test]
fn keccak256_absorbs_in_pieces() {
    let mut a = Keccak256Hasher::new();
    a.update(b"hello ");
    a.update(b"world");
    let mut b = Keccak256Hasher::new();
    b.update(b"hello world");
    assert_eq!(a.finalize(), b.finalize());
    let mut c = Keccak256Hasher::new();
    c.update(b"hello");
    let mut d = Keccak256Hasher::new();
    d.update(b"world");
    assert_ne!(c.finalize(), d.finalize());
}

#[test]
fn hash_prg_is_deterministic() {
    let mut p = HashPRG::<Keccak256Hasher>::new(b"seed");
    let mut q = HashPRG::<Keccak256Hasher>::new(b"seed");
    let mut r = HashPRG::<Keccak256Hasher>::new(b"other seed");
    let mut a = [0u8; 100];
    let mut b = [0u8; 100];
    let mut c = [0u8; 100];
    p.fill_bytes(&mut a);
    q.fill_bytes(&mut b[..37]);
    q.fill_bytes(&mut b[37..]);
    r.fill_bytes(&mut c);
    assert_eq!(a, b);
    assert_ne!(a, c);
    let x = p.next_byte();
    let y = q.next_byte();
    assert_eq!(x, y);
}

#[test]
fn party_vec_push_and_get() {
    let mut v = PartyVec::new();
    assert_eq!(v.len(), 0);
    assert!(v.get(0).is_none());
    let indices = [0usize, 1, 2, 2, 1, 0, 1, 2, 0];
    for i in indices.iter() {
        v.push(Party::from_index(*i));
    }
    assert_eq!(v.len(), indices.len());
    for (k, i) in indices.iter().enumerate() {
        assert_eq!(v.get(k).unwrap().index(), *i);
    }
    assert!(v.get(indices.len()).is_none());
    assert_eq!(PartyVec::byte_idx_and_shift(5), (1, 4));
}

#[test]
fn party_round_robin() {
    assert_eq!(Party::from_index(0).next().index(), 1);
    assert_eq!(Party::from_index(2).next().index(), 0);
    assert_eq!(Party::from_index(5).index(), 2);
}

#[test]
fn challenge_generator_draws_valid_parties_deterministically() {
    let mut g = ChallengeGenerator::new(HashPRG::<Keccak256Hasher>::new(b"entropy"));
    let mut h = ChallengeGenerator::new(HashPRG::<Keccak256Hasher>::new(b"entropy"));
    for _ in 0..200 {
        let a = g.try_next(usize::MAX).unwrap();
        let b = h.try_next(usize::MAX).unwrap();
        assert!(a.index() < 3);
        assert_eq!(a.index(), b.index());
    }
}

#[test]
fn challenge_generator_bound_of_zero_pairs_draws_nothing() {
    let mut g = ChallengeGenerator::new(HashPRG::<Keccak256Hasher>::new(b"x"));
    assert!(g.try_next(0).is_none());
}

#[test]
fn alloc_set_allocates_lowest_free_index() {
    let mut s = AllocSet::with_capacity(4);
    let a = s.allocate();
    let b = s.allocate();
    let c = s.allocate();
    assert_eq!((a, b, c), (0, 1, 2));
    assert_eq!(s.alloc_count(), 3);
    s.free(1);
    assert_eq!(s.alloc_count(), 2);
    assert_eq!(s.allocate(), 1);
    assert_eq!(s.allocate(), 3);
    assert_eq!(s.allocate(), 4);
    assert_eq!(s.alloc_count(), 5);
}

#[test]
fn composite_word_arithmetic() {
    let a = CompositeWord::<u8, 2>::from_le_words([0xff, 0x01]);
    let b = CompositeWord::<u8, 2>::from_le_words([0x02, 0x00]);
    assert_eq!(a.wrapping_add(b).to_le_words(), [0x01, 0x02]);
    assert_eq!(b.wrapping_sub(a).to_le_words(), [0x03, 0xfe]);
    let (lo, hi) = a.wide_mul(a);
    // 0x01ff * 0x01ff = 0x0003_fc01
    assert_eq!(lo.to_le_words(), [0x01, 0xfc]);
    assert_eq!(hi.to_le_words(), [0x03, 0x00]);
    assert!(b.lt(a));
    assert!(!a.lt(b));
    assert_eq!(a.rotate_left(4).to_le_words(), [0xf0, 0x1f]);
    assert_eq!(a.swap_bytes().to_le_words(), [0x01, 0xff]);
    let (s, carry) = a.overflowing_add(CompositeWord::<u8, 2>::from_le_words([0x01, 0xfe]));
    assert_eq!(s.to_le_words(), [0x00, 0x00]);
    assert!(carry);
}

#[test]
fn words_xor_and_shape_mismatch() {
    let mut a = Words::new();
    a.u8.push(0x0f);
    a.u32.push(0x1234_5678);
    let mut b = Words::new();
    b.u8.push(0xf0);
    b.u32.push(0xffff_0000);
    let c = a.bitxor(&b).unwrap();
    assert_eq!(c.u8, vec![0xff]);
    assert_eq!(c.u32, vec![0xedcb_5678]);
    b.u16.push(1);
    assert!(a.bitxor(&b).is_err());
}

#[test]
fn words_bytes_are_little_endian_per_type() {
    let mut a = Words::new();
    a.u16.push(0x0102);
    a.u8.push(0xaa);
    let bytes = a.as_bytes();
    assert!(bytes.len() >= 3);
    assert!(bytes.windows(2).any(|w| w == [0x02, 0x01]));
}

#[test]
fn feature_flags_mark_every_enabled_word_type() {
    let empty = Words::new();
    assert_eq!(empty.feature_flags(), 0b1_1111);
    assert_eq!(empty.feature_flags() & 1, 1);
    let mut one = Words::new();
    one.u64.push(7);
    assert_eq!(one.feature_flags(), 0b1_1111);
    assert_eq!(one.as_bytes()[0], 0b1_1111);
}

#[test]
fn rotation_by_any_shift() {
    let x = CompositeWord::<u8, 1>::from_le_words([1u8]);
    assert_eq!(x.rotate_left(16).to_le_words(), [1u8]);
    assert_eq!(x.rotate_left(9).to_le_words(), [2u8]);
    assert_eq!(x.rotate_right(17).to_le_words(), [0x80u8]);
    let y = CompositeWord::<u8, 2>::from_le_words([0x01, 0x80]);
    assert_eq!(y.rotate_left(1 + 16 * 5).to_le_words(), [0x03, 0x00]);
    assert_eq!(y.rotate_right(usize::MAX).to_le_words(), y.rotate_left(1).to_le_words());
}
