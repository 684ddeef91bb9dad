//! Members of a group and the keys they are drawn with.
//!
//! Keys are plain bytes here. The generators and the two derivations of a
//! public key are those of `rand` and `keyhive_crypto`.

use keyhive_crypto::share_key::ShareSecretKey;
use keyhive_crypto::signer::memory::MemorySigner;
use keyhive_crypto::verifiable::Verifiable;
use rand::rngs::StdRng;
use rand::SeedableRng;
use vstd::prelude::*;

verus! {

/// `rand::rngs::StdRng`, carried through unopened.
#[verifier::external_type_specification]
#[verifier::external_body]
pub struct ExStdRng(StdRng);

/// What a generator still holds: its coming output, cut into blocks of 32
/// bytes and numbered from zero.
pub uninterp spec fn blocks(rng: StdRng) -> Map<nat, Seq<u8>>;

/// The blocks of a generator that was seeded with `seed` and not yet used.
pub uninterp spec fn seeded_blocks(seed: u64) -> Map<nat, Seq<u8>>;

/// The Ed25519 verifying key of a signing secret.
pub uninterp spec fn verifying_key_of(secret: Seq<u8>) -> Seq<u8>;

/// The X25519 public key of a share secret.
pub uninterp spec fn share_key_of(secret: Seq<u8>) -> Seq<u8>;

/// `StdRng::seed_from_u64`: the generator holds the blocks of its seed. The
/// generator is deterministic, so nothing but the seed decides them.
#[verifier::external_body]
pub(crate) fn seed_rng(seed: u64) -> (rng: StdRng)
    ensures
        blocks(rng) == seeded_blocks(seed),
{
    StdRng::seed_from_u64(seed)
}

/// `MemorySigner::generate`, as the secret's bytes: it takes the generator's
/// next block for the secret and leaves the blocks behind it.
#[verifier::external_body]
fn generate_signer(rng: &mut StdRng) -> (secret: [u8; 32])
    ensures
        secret@ == blocks(*old(rng))[0],
        forall|k: nat| #[trigger] blocks(*final(rng))[k] == blocks(*old(rng))[k + 1],
{
    MemorySigner::generate(rng).0.to_bytes()
}

/// `Verifiable::verifying_key` of the `MemorySigner` with this secret, as bytes.
#[verifier::external_body]
fn verifying_key(secret: &[u8; 32]) -> (key: [u8; 32])
    ensures
        key@ == verifying_key_of(secret@),
{
    MemorySigner(secret.into()).verifying_key().to_bytes()
}

/// `ShareSecretKey::generate`, as the secret's bytes: it takes the generator's
/// next block for the secret and leaves the blocks behind it.
#[verifier::external_body]
fn generate_share_secret(rng: &mut StdRng) -> (secret: [u8; 32])
    ensures
        secret@ == blocks(*old(rng))[0],
        forall|k: nat| #[trigger] blocks(*final(rng))[k] == blocks(*old(rng))[k + 1],
{
    ShareSecretKey::generate(rng).to_bytes()
}

/// `ShareSecretKey::share_key` of the secret with these bytes, as bytes.
#[verifier::external_body]
fn share_key(secret: &[u8; 32]) -> (key: [u8; 32])
    ensures
        key@ == share_key_of(secret@),
{
    ShareSecretKey::force_from_bytes(*secret).share_key().to_bytes()
}

/// A generator whose first `n` blocks have been taken from `all`.
pub open spec fn drawn(rng: StdRng, all: Map<nat, Seq<u8>>, n: nat) -> bool {
    forall|k: nat| #[trigger] blocks(rng)[k] == all[k + n]
}

/// A signing secret and its verifying key.
#[derive(Clone, Copy, Debug)]
pub struct Signer {
    pub secret: [u8; 32],
    pub verifying: [u8; 32],
}

impl Signer {
    /// The signer whose secret is `block`.
    pub open spec fn of(self, block: Seq<u8>) -> bool {
        &&& self.secret@ == block
        &&& self.verifying@ == verifying_key_of(block)
    }
}

/// A share secret and its public key.
#[derive(Clone, Copy, Debug)]
pub struct Share {
    pub sk: [u8; 32],
    pub pk: [u8; 32],
}

impl Share {
    /// The share whose secret is `block`.
    pub open spec fn of(self, block: Seq<u8>) -> bool {
        &&& self.sk@ == block
        &&& self.pk@ == share_key_of(block)
    }
}

/// Draws a signer.
pub fn signer(rng: &mut StdRng) -> (r: Signer)
    ensures
        r.of(blocks(*old(rng))[0]),
        r.secret@ == blocks(*old(rng))[0],
        r.verifying@ == verifying_key_of(r.secret@),
        forall|k: nat| #[trigger] blocks(*final(rng))[k] == blocks(*old(rng))[k + 1],
        drawn(*final(rng), blocks(*old(rng)), 1),
{
    let secret = generate_signer(rng);
    let verifying = verifying_key(&secret);
    Signer { secret, verifying }
}

/// Draws a share.
pub fn share(rng: &mut StdRng) -> (r: Share)
    ensures
        r.of(blocks(*old(rng))[0]),
        r.sk@ == blocks(*old(rng))[0],
        r.pk@ == share_key_of(r.sk@),
        forall|k: nat| #[trigger] blocks(*final(rng))[k] == blocks(*old(rng))[k + 1],
        drawn(*final(rng), blocks(*old(rng)), 1),
{
    let sk = generate_share_secret(rng);
    let pk = share_key(&sk);
    Share { sk, pk }
}

/// A member of a group. Its verifying key is its id.
#[derive(Clone, Copy, Debug)]
pub struct Member {
    pub id: [u8; 32],
    pub signer: [u8; 32],
    pub pk: [u8; 32],
    pub sk: [u8; 32],
}

impl Member {
    /// The member drawn with `signing` for its signing secret and `sharing`
    /// for its share secret.
    pub open spec fn of(self, signing: Seq<u8>, sharing: Seq<u8>) -> bool {
        &&& self.signer@ == signing
        &&& self.id@ == verifying_key_of(signing)
        &&& self.sk@ == sharing
        &&& self.pk@ == share_key_of(sharing)
    }
}

/// Draws a member: its signing secret first, then its share secret.
pub fn member(rng: &mut StdRng) -> (m: Member)
    ensures
        m.of(blocks(*old(rng))[0], blocks(*old(rng))[1]),
        m.signer@ == blocks(*old(rng))[0],
        m.id@ == verifying_key_of(m.signer@),
        m.sk@ == blocks(*old(rng))[1],
        m.pk@ == share_key_of(m.sk@),
        forall|k: nat| #[trigger] blocks(*final(rng))[k] == blocks(*old(rng))[k + 2],
        drawn(*final(rng), blocks(*old(rng)), 2),
{
    let ghost all = blocks(*rng);
    let signing = signer(rng);
    proof {
        assert(blocks(*rng)[0] == all[0 + 1]);
    }
    let ghost mid = blocks(*rng);
    let sharing = share(rng);
    proof {
        assert forall|k: nat| #[trigger] blocks(*rng)[k] == all[k + 2] by {
            assert(blocks(*rng)[k] == mid[k + 1]);
        }
    }
    Member { id: signing.verifying, signer: signing.secret, pk: sharing.pk, sk: sharing.sk }
}

/// A member's public keys are those of its own secrets, and its secrets are the
/// blocks it was drawn with: the signing secret and the share secret are two
/// different blocks of the stream.
pub proof fn law_public_keys_belong_to_the_secrets(m: Member, signing: Seq<u8>, sharing: Seq<u8>)
    ensures
        m.of(signing, sharing) <==> {
            &&& m.signer@ == signing
            &&& m.id@ == verifying_key_of(m.signer@)
            &&& m.sk@ == sharing
            &&& m.pk@ == share_key_of(m.sk@)
        },
{
}

/// The same of a signer and of a share.
pub proof fn law_public_key_belongs_to_the_secret(signer: Signer, share: Share, block: Seq<u8>)
    ensures
        signer.of(block) <==> signer.secret@ == block && signer.verifying@ == verifying_key_of(
            signer.secret@,
        ),
        share.of(block) <==> share.sk@ == block && share.pk@ == share_key_of(share.sk@),
{
}

/// A generator from which `n` blocks were drawn goes on with the block numbered
/// `n`, and a further draw moves on by what it takes.
pub proof fn law_drawing_moves_along_the_stream(rng: StdRng, all: Map<nat, Seq<u8>>, n: nat)
    ensures
        drawn(rng, all, n) <==> (forall|k: nat| #[trigger] blocks(rng)[k] == all[k + n]),
        drawn(rng, blocks(rng), 0),
{
}

} // verus!
