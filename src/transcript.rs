//! A Fiat-Shamir transcript: bytes are absorbed into a running Keccak-256
//! input, and each challenge is drawn from the digest of that input.
use crate::field::{scalar_from_seed, seeded_scalar, Scalar};
use sha3::{Digest, Keccak256};
use vstd::prelude::*;

verus! {

/// The Keccak-256 digest of `data`.
pub uninterp spec fn keccak256_of(data: Seq<u8>) -> Seq<u8>;

/// Relies on `Digest::digest` for sha3's `Keccak256`: the 32-byte digest of
/// the input, a function of the input alone.
#[verifier::external_body]
fn keccak256(data: &Vec<u8>) -> (r: [u8; 32])
    ensures
        r@ == keccak256_of(data@),
{
    Keccak256::digest(data.as_slice()).into()
}

/// The challenge drawn from a transcript whose absorbed input is `state`.
pub open spec fn challenge_of(state: Seq<u8>) -> int {
    seeded_scalar(keccak256_of(state))
}

/// The input that a transcript holds after a squeeze from `state`: the digest
/// is fed back so that the next squeeze differs.
pub open spec fn state_after_squeeze(state: Seq<u8>) -> Seq<u8> {
    keccak256_of(state)
}

/// The challenges of `k` successive squeezes from `state`.
pub open spec fn challenges_of(state: Seq<u8>, k: nat) -> Seq<int>
    decreases k,
{
    if k == 0 {
        Seq::empty()
    } else {
        seq![challenge_of(state)] + challenges_of(state_after_squeeze(state), (k - 1) as nat)
    }
}

/// The input that a transcript holds after `k` successive squeezes from `state`.
pub open spec fn state_after_squeezes(state: Seq<u8>, k: nat) -> Seq<u8>
    decreases k,
{
    if k == 0 {
        state
    } else {
        state_after_squeezes(state_after_squeeze(state), (k - 1) as nat)
    }
}

/// A Fiat-Shamir transcript over Keccak-256.
pub struct FiatShamir {
    input: Vec<u8>,
}

impl View for FiatShamir {
    type V = Seq<u8>;

    /// What the hash state has absorbed since it was last reset.
    closed spec fn view(&self) -> Seq<u8> {
        self.input@
    }
}

impl FiatShamir {
    pub fn new() -> (r: FiatShamir)
        ensures
            r@ == Seq::<u8>::empty(),
    {
        FiatShamir { input: Vec::new() }
    }

    /// Feeds `data` to the hash state.
    pub fn absorb(&mut self, data: &[u8])
        ensures
            final(self)@ == old(self)@ + data@,
    {
        let ghost before = self.input@;
        let mut i: usize = 0;
        while i < data.len()
            invariant
                i <= data@.len(),
                self.input@ == before + data@.subrange(0, i as int),
            decreases data@.len() - i,
        {
            self.input.push(data[i]);
            i = i + 1;
            proof {
                assert(self.input@ =~= before + data@.subrange(0, i as int));
            }
        }
        proof {
            assert(data@.subrange(0, data@.len() as int) =~= data@);
        }
    }

    /// Feeds each of `data` in turn.
    pub fn absorb_n(&mut self, data: &[Vec<u8>])
        ensures
            final(self)@ == old(self)@ + data@.map_values(|b: Vec<u8>| b@).flatten(),
    {
        let ghost before = self@;
        let mut i: usize = 0;
        while i < data.len()
            invariant
                i <= data@.len(),
                self@ == before + data@.subrange(0, i as int).map_values(|b: Vec<u8>| b@).flatten(),
            decreases data@.len() - i,
        {
            let ghost prev = self@;
            self.absorb(data[i].as_slice());
            i = i + 1;
            proof {
                let s = data@.subrange(0, i as int).map_values(|b: Vec<u8>| b@);
                let t = data@.subrange(0, i - 1).map_values(|b: Vec<u8>| b@);
                assert(s =~= t.push(data@[i - 1]@));
                t.lemma_flatten_push(data@[i - 1]@);
            }
        }
        proof {
            assert(data@.subrange(0, data@.len() as int) =~= data@);
        }
    }

    /// Draws a challenge: digests what was absorbed, feeds the digest back,
    /// and samples a field element seeded by it.
    pub fn squeeze(&mut self) -> (r: Scalar)
        ensures
            r.val() == challenge_of(old(self)@),
            final(self)@ == state_after_squeeze(old(self)@),
    {
        let digest = keccak256(&self.input);
        let mut input: Vec<u8> = Vec::new();
        let mut i: usize = 0;
        while i < 32
            invariant
                i <= 32,
                input@ == digest@.subrange(0, i as int),
            decreases 32 - i,
        {
            input.push(digest[i]);
            i = i + 1;
            proof {
                assert(input@ =~= digest@.subrange(0, i as int));
            }
        }
        proof {
            assert(digest@.subrange(0, 32) =~= digest@);
        }
        self.input = input;
        scalar_from_seed(digest)
    }

    /// Draws `k` challenges in turn.
    pub fn squeeze_n(&mut self, k: usize) -> (r: Vec<Scalar>)
        ensures
            r@.map_values(|s: Scalar| s.val()) == challenges_of(old(self)@, k as nat),
            final(self)@ == state_after_squeezes(old(self)@, k as nat),
    {
        let mut r: Vec<Scalar> = Vec::new();
        let ghost start = self@;
        let mut i: usize = 0;
        while i < k
            invariant
                i <= k,
                r@.map_values(|s: Scalar| s.val()) + challenges_of(self@, (k - i) as nat)
                    == challenges_of(start, k as nat),
                state_after_squeezes(self@, (k - i) as nat) == state_after_squeezes(start, k as nat),
            decreases k - i,
        {
            let ghost prev = r@.map_values(|s: Scalar| s.val());
            let c = self.squeeze();
            r.push(c);
            i = i + 1;
            proof {
                assert(r@.map_values(|s: Scalar| s.val()) =~= prev.push(c.val()));
            }
        }
        proof {
            let v = r@.map_values(|s: Scalar| s.val());
            assert(v + challenges_of(self@, 0) =~= v);
        }
        r
    }

    /// Empties the hash state.
    pub fn reset(&mut self)
        ensures
            final(self)@ == Seq::<u8>::empty(),
    {
        self.input = Vec::new();
    }
}

/// The challenges of a session that, from transcript input `st`, absorbs
/// each of `inputs` in turn and squeezes once after each.
pub open spec fn session_challenges(inputs: Seq<Seq<u8>>, st: Seq<u8>) -> Seq<int>
    decreases inputs.len(),
{
    if inputs.len() == 0 {
        Seq::empty()
    } else {
        let st1 = st + inputs[0];
        seq![challenge_of(st1)] + session_challenges(inputs.drop_first(), state_after_squeeze(st1))
    }
}

/// Transcripts are deterministic: two sessions that start from the same
/// input and absorb the same bytes between their squeezes draw the same
/// challenges, and a challenge depends on nothing but what was absorbed
/// before it.
pub proof fn lemma_transcript_determinism(inputs1: Seq<Seq<u8>>, inputs2: Seq<Seq<u8>>, st1: Seq<u8>, st2: Seq<u8>)
    requires
        inputs1 == inputs2,
        st1 == st2,
    ensures
        session_challenges(inputs1, st1) == session_challenges(inputs2, st2),
        forall|k: int|
            0 <= k < inputs1.len() ==> #[trigger] session_challenges(inputs1, st1)[k] == challenge_of(
                session_state(inputs1.take(k), st1) + inputs1[k],
            ),
    decreases inputs1.len(),
{
    lemma_session_len(inputs1, st1);
    if inputs1.len() > 0 {
        let st_next = state_after_squeeze(st1 + inputs1[0]);
        lemma_transcript_determinism(inputs1.drop_first(), inputs2.drop_first(), st_next, st_next);
        assert forall|k: int| 0 <= k < inputs1.len() implies #[trigger] session_challenges(inputs1, st1)[k]
            == challenge_of(session_state(inputs1.take(k), st1) + inputs1[k]) by {
            if k > 0 {
                let rest = inputs1.drop_first();
                assert(inputs1.take(k).drop_first() =~= rest.take(k - 1));
                assert(inputs1.take(k)[0] == inputs1[0]);
                assert(session_challenges(rest, st_next)[k - 1] == challenge_of(
                    session_state(rest.take(k - 1), st_next) + rest[k - 1],
                ));
            } else {
                assert(inputs1.take(0) =~= Seq::<Seq<u8>>::empty());
            }
        }
    }
}

/// The transcript input after a session over `inputs` from `st`.
pub open spec fn session_state(inputs: Seq<Seq<u8>>, st: Seq<u8>) -> Seq<u8>
    decreases inputs.len(),
{
    if inputs.len() == 0 {
        st
    } else {
        session_state(inputs.drop_first(), state_after_squeeze(st + inputs[0]))
    }
}

proof fn lemma_session_len(inputs: Seq<Seq<u8>>, st: Seq<u8>)
    ensures
        session_challenges(inputs, st).len() == inputs.len(),
    decreases inputs.len(),
{
    if inputs.len() > 0 {
        lemma_session_len(inputs.drop_first(), state_after_squeeze(st + inputs[0]));
    }
}

} // verus!
