//! The content hasher: a seeded 64-bit xxHash accumulator fed chunk by chunk.

use vstd::prelude::*;
use vstd::slice::slice_subrange;

verus! {

/// `twox_hash::XxHash64`, the accumulator of the 64-bit xxHash. Nothing is
/// known of what is inside a value of it but what the names below say.
#[verifier::external_type_specification]
#[verifier::external_body]
pub struct ExXxHash64(twox_hash::XxHash64);

/// The seed that an accumulator was made with: what
/// `twox_hash::XxHash64::with_seed` was given.
pub uninterp spec fn hasher_seed(hasher: twox_hash::XxHash64) -> u64;

/// The bytes written to an accumulator so far, in order, by all calls of
/// `Hasher::write` together.
pub uninterp spec fn hasher_input(hasher: twox_hash::XxHash64) -> Seq<u8>;

/// The 64-bit xxHash digest of `data` under `seed`: what `Hasher::finish`
/// of `twox_hash::XxHash64` returns for an accumulator made with `seed` and fed
/// `data`. It depends on nothing else.
pub uninterp spec fn xxh64(seed: u64, data: Seq<u8>) -> u64;

/// `twox_hash::XxHash64::with_seed`: a fresh accumulator that remembers the
/// seed and has been fed nothing.
#[verifier::external_body]
fn xx_with_seed(seed: u64) -> (hasher: twox_hash::XxHash64)
    ensures
        hasher_seed(hasher) == seed,
        hasher_input(hasher) == Seq::<u8>::empty(),
{
    twox_hash::XxHash64::with_seed(seed)
}

/// `Hasher::write` of `twox_hash::XxHash64`, on a copy of the accumulator:
/// the copy has been fed what `hasher` was and then `bytes`, and has the same
/// seed. The accumulator counts its input in a `u64`, so the total must stay
/// within one.
#[verifier::external_body]
fn xx_write(hasher: twox_hash::XxHash64, bytes: &[u8]) -> (next: twox_hash::XxHash64)
    requires
        hasher_input(hasher).len() + bytes@.len() <= u64::MAX,
    ensures
        hasher_seed(next) == hasher_seed(hasher),
        hasher_input(next) == hasher_input(hasher) + bytes@,
{
    let mut next = hasher;
    std::hash::Hasher::write(&mut next, bytes);
    next
}

/// `Hasher::finish` of `twox_hash::XxHash64`: the digest of everything fed so
/// far under the accumulator's seed; how the input was cut into writes does
/// not matter.
#[verifier::external_body]
fn xx_finish(hasher: &twox_hash::XxHash64) -> (digest: u64)
    ensures
        digest == xxh64(hasher_seed(*hasher), hasher_input(*hasher)),
{
    std::hash::Hasher::finish(hasher)
}

/// The seed of every digest that the scan compares.
pub const DEFAULT_SEED: u64 = 0;

/// The number of bytes handed to the accumulator at a time.
pub const CHUNK_SIZE: usize = 32768;

/// A streaming hasher of one file's content.
pub struct ContentHasher {
    state: twox_hash::XxHash64,
    fed: u64,
}

impl ContentHasher {
    /// The seed of this hasher.
    pub closed spec fn seed(&self) -> u64 {
        hasher_seed(self.state)
    }

    /// The content fed so far.
    pub closed spec fn input(&self) -> Seq<u8> {
        hasher_input(self.state)
    }

    /// The hasher's own count agrees with what it was fed.
    #[verifier::type_invariant]
    closed spec fn counted(&self) -> bool {
        self.fed == hasher_input(self.state).len()
    }

    /// A hasher with the given seed that has been fed nothing.
    pub fn with_seed(seed: u64) -> (hasher: ContentHasher)
        ensures
            hasher.seed() == seed,
            hasher.input() == Seq::<u8>::empty(),
    {
        ContentHasher { state: xx_with_seed(seed), fed: 0 }
    }

    /// A hasher with the default seed.
    pub fn new() -> (hasher: ContentHasher)
        ensures
            hasher.seed() == DEFAULT_SEED,
            hasher.input() == Seq::<u8>::empty(),
    {
        ContentHasher::with_seed(DEFAULT_SEED)
    }

    /// The number of bytes fed so far.
    pub fn len(&self) -> (fed: u64)
        ensures
            fed == self.input().len(),
    {
        proof {
            use_type_invariant(self);
        }
        self.fed
    }

    /// Feeds the next chunk of the content. Returns `false`, and leaves the
    /// hasher as it was, where the content would grow beyond what a `u64` can
    /// count.
    pub fn update(&mut self, chunk: &[u8]) -> (accepted: bool)
        ensures
            final(self).seed() == old(self).seed(),
            accepted == (old(self).input().len() + chunk@.len() <= u64::MAX),
            accepted ==> final(self).input() == old(self).input() + chunk@,
            !accepted ==> final(self).input() == old(self).input(),
    {
        proof {
            use_type_invariant(&*self);
        }
        let size: usize = chunk.len();
        if size as u64 > u64::MAX - self.fed {
            return false;
        }
        let state = xx_write(self.state, chunk);
        let fed: u64 = self.fed + size as u64;
        *self = ContentHasher { state, fed };
        true
    }

    /// The digest of the content fed so far.
    pub fn digest(&self) -> (digest: u64)
        ensures
            digest == xxh64(self.seed(), self.input()),
    {
        xx_finish(&self.state)
    }
}

/// The digest of `data` under the default seed, computed by streaming it
/// through a hasher in chunks of `CHUNK_SIZE` bytes.
pub fn hash_bytes(data: &[u8]) -> (digest: u64)
    ensures
        digest == xxh64(DEFAULT_SEED, data@),
{
    let mut hasher = ContentHasher::new();
    let mut done: usize = 0;
    while done < data.len()
        invariant
            0 <= done <= data@.len(),
            hasher.seed() == DEFAULT_SEED,
            hasher.input() == data@.take(done as int),
        decreases data@.len() - done,
    {
        let left: usize = data.len() - done;
        let step: usize = if left < CHUNK_SIZE { left } else { CHUNK_SIZE };
        let chunk = slice_subrange(data, done, done + step);
        let accepted = hasher.update(chunk);
        proof {
            assert(accepted);
            assert(data@.take(done as int) + data@.subrange(done as int, done + step) =~= data@.take(
                done + step,
            ));
        }
        done = done + step;
    }
    proof {
        assert(data@.take(data@.len() as int) == data@);
    }
    hasher.digest()
}

} // verus!
