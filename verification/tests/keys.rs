use beekem_regressions::keys::{member, share, signer};
use keyhive_crypto::share_key::ShareSecretKey;
use keyhive_crypto::signer::memory::MemorySigner;
use keyhive_crypto::verifiable::Verifiable;
use rand::rngs::StdRng;
use rand::{RngCore, SeedableRng};

#[test]
fn a_member_is_drawn_as_the_generators_draw_it() {
    for seed in [0u64, 1, 0x5107_0000, u64::MAX] {
        let mut mine = StdRng::seed_from_u64(seed);
        let mut theirs = StdRng::seed_from_u64(seed);
        for _ in 0..3 {
            let m = member(&mut mine);
            let signing = MemorySigner::generate(&mut theirs);
            let sk = ShareSecretKey::generate(&mut theirs);
            assert_eq!(m.signer, signing.0.to_bytes());
            assert_eq!(m.id, signing.verifying_key().to_bytes());
            assert_eq!(m.sk, sk.to_bytes());
            assert_eq!(m.pk, sk.share_key().to_bytes());
            assert_ne!(m.id, m.signer);
            assert_ne!(m.pk, m.sk);
        }
        assert_eq!(mine.next_u64(), theirs.next_u64());
    }
}

#[test]
fn secrets_are_the_generators_next_blocks() {
    let mut stream = StdRng::seed_from_u64(9);
    let mut blocks = vec![[0u8; 32]; 4];
    for b in blocks.iter_mut() {
        stream.fill_bytes(b);
    }
    let mut rng = StdRng::seed_from_u64(9);
    assert_eq!(signer(&mut rng).secret, blocks[0]);
    assert_eq!(share(&mut rng).sk, blocks[1]);
    let m = member(&mut rng);
    assert_eq!(m.signer, blocks[2]);
    assert_eq!(m.sk, blocks[3]);
}
