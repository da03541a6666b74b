use vstd::prelude::*;

verus! {

/// The multiplier of the Fx mixing step.
pub const FX_SEED: u64 = 0x51_7c_c1_b7_27_22_0a_95;

/// One mixing step of the Fx algorithm: rotate the state left by five bits,
/// fold the next byte in, and multiply (wrapping) by the seed.
pub open spec fn fx_step(acc: u64, b: u8) -> u64 {
    vstd::wrapping::u64_specs::wrapping_mul(((acc << 5) | (acc >> 59)) ^ (b as u64), FX_SEED)
}

/// The state an Fx hasher reaches from `acc` after eating `bytes`.
pub open spec fn fx_digest_rec(bytes: Seq<u8>, acc: u64) -> u64
    decreases bytes.len(),
{
    if bytes.len() == 0 {
        acc
    } else {
        fx_digest_rec(bytes.drop_first(), fx_step(acc, bytes.first()))
    }
}

/// The Fx digest of a byte string.
pub open spec fn fx_digest(bytes: Seq<u8>) -> u64 {
    fx_digest_rec(bytes, 0)
}

/// A capability to digest byte strings.
///
/// A provider builds a fresh stateful hasher for every digest it hands out,
/// so no state leaks from one hashing operation into the next.  The digest is
/// a function of the provider's value and the bytes alone; `duplicate` hands
/// out an equal provider, so a copy (taken when a larger table is built)
/// digests every key to the same value.
pub trait HashProvider: Sized {
    /// The digest this provider gives a byte string.
    spec fn digest_spec(&self, bytes: Seq<u8>) -> u64;

    /// Digests a byte string.
    fn digest(&self, bytes: &[u8]) -> (r: u64)
        ensures
            r == self.digest_spec(bytes@),
    ;

    /// Hands out an equal provider.
    fn duplicate(&self) -> (r: Self)
        ensures
            r == *self,
    ;
}

/// A stateful hasher running a byte-at-a-time variant of the Fx algorithm.
pub struct FxHasher {
    state: u64,
}

impl FxHasher {
    /// The accumulated state.
    pub closed spec fn state_spec(&self) -> u64 {
        self.state
    }

    /// A fresh hasher.
    pub fn new() -> (r: Self)
        ensures
            r.state_spec() == 0,
    {
        FxHasher { state: 0 }
    }

    /// Eats a byte string, mixing each byte into the state in turn.
    pub fn write(&mut self, bytes: &[u8])
        ensures
            final(self).state_spec() == fx_digest_rec(bytes@, old(self).state_spec()),
    {
        let n = bytes.len();
        let mut i: usize = 0;
        proof {
            assert(bytes@.skip(0) =~= bytes@);
        }
        while i < n
            invariant
                n == bytes@.len(),
                i <= n,
                fx_digest_rec(bytes@, old(self).state_spec()) == fx_digest_rec(
                    bytes@.skip(i as int),
                    self.state_spec(),
                ),
            decreases n - i,
        {
            let b = bytes[i];
            proof {
                assert(bytes@.skip(i as int).first() == bytes@[i as int]);
                assert(bytes@.skip(i as int).drop_first() =~= bytes@.skip(i as int + 1));
            }
            self.state = (((self.state << 5) | (self.state >> 59)) ^ (b as u64)).wrapping_mul(
                FX_SEED,
            );
            i = i + 1;
        }
        proof {
            assert(bytes@.skip(n as int) =~= Seq::<u8>::empty());
        }
    }

    /// Finalizes: the digest is the state reached so far.
    pub fn finish(&self) -> (r: u64)
        ensures
            r == self.state_spec(),
    {
        self.state
    }
}

/// The default hash provider: builds a fresh [`FxHasher`] per digest.
#[derive(Clone, Copy, PartialEq, Eq, Structural)]
pub struct FxBuildHasher;

impl FxBuildHasher {
    pub fn new() -> (r: Self)
        ensures
            r == FxBuildHasher,
    {
        FxBuildHasher
    }

    /// Builds a fresh hasher.
    pub fn build_hasher(&self) -> (r: FxHasher)
        ensures
            r.state_spec() == 0,
    {
        FxHasher::new()
    }
}

impl HashProvider for FxBuildHasher {
    open spec fn digest_spec(&self, bytes: Seq<u8>) -> u64 {
        fx_digest(bytes)
    }

    fn digest(&self, bytes: &[u8]) -> (r: u64) {
        let mut hasher = self.build_hasher();
        hasher.write(bytes);
        hasher.finish()
    }

    fn duplicate(&self) -> (r: Self) {
        FxBuildHasher
    }
}

/// The little-endian word value of the first eight bytes, counting a byte
/// string shorter than eight bytes as padded with zeros.
pub open spec fn le_word_upto(bytes: Seq<u8>, k: int) -> u64
    decreases k,
{
    if k <= 0 {
        0u64
    } else {
        le_word_upto(bytes, k - 1) | byte_shifted(bytes, k - 1)
    }
}

/// Byte `i` of a byte string moved to bit position `8 * i`, or zero where
/// there is no such byte.
pub open spec fn byte_shifted(bytes: Seq<u8>, i: int) -> u64 {
    if 0 <= i && i < bytes.len() && i < 8 {
        (bytes[i] as u64) << ((8 * i) as u64)
    } else {
        0u64
    }
}

/// Beyond the end of the byte string every step folds in a zero.
proof fn lemma_le_word_upto_stable(bytes: Seq<u8>, k: int)
    requires
        bytes.len() <= k <= 8,
    ensures
        le_word_upto(bytes, 8) == le_word_upto(bytes, k),
    decreases 8 - k,
{
    if k < 8 {
        lemma_le_word_upto_stable(bytes, k + 1);
        assert(byte_shifted(bytes, k) == 0);
        let a = le_word_upto(bytes, k);
        assert(a | 0u64 == a) by (bit_vector);
    }
}

/// A transparent provider: the digest is the key's leading bytes read as a
/// little-endian word.  Useful where the probing behaviour of the table must
/// be laid out by hand, as an alternative algorithm behind [`HashProvider`].
#[derive(Clone, Copy, PartialEq, Eq, Structural)]
pub struct IdentityBuildHasher;

impl IdentityBuildHasher {
    pub fn new() -> (r: Self)
        ensures
            r == IdentityBuildHasher,
    {
        IdentityBuildHasher
    }
}

impl HashProvider for IdentityBuildHasher {
    open spec fn digest_spec(&self, bytes: Seq<u8>) -> u64 {
        le_word_upto(bytes, 8)
    }

    fn digest(&self, bytes: &[u8]) -> (r: u64) {
        let n = if bytes.len() < 8 {
            bytes.len()
        } else {
            8
        };
        let mut acc: u64 = 0;
        let mut i: usize = 0;
        while i < n
            invariant
                n <= bytes@.len(),
                n <= 8,
                i <= n,
                acc == le_word_upto(bytes@, i as int),
            decreases n - i,
        {
            acc = acc | ((bytes[i] as u64) << ((8 * i) as u64));
            proof {
                assert(byte_shifted(bytes@, i as int) == (bytes@[i as int] as u64) << ((8 * i)
                    as u64));
            }
            i = i + 1;
        }
        proof {
            if n < 8 {
                lemma_le_word_upto_stable(bytes@, n as int);
            }
        }
        acc
    }

    fn duplicate(&self) -> (r: Self) {
        IdentityBuildHasher
    }
}

} // verus!
