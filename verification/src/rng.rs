//! The seeded random stream behind every mask, shield and permutation.

use rand::seq::SliceRandom;
use rand::{RngCore, SeedableRng};
use rand_chacha::ChaCha20Rng;
use vstd::prelude::*;

verus! {

/// Number of words after which a ChaCha20 stream repeats: 2^64 blocks of 16 words.
pub const STREAM_WORDS: u128 = 295147905179352825856;

/// State of a random stream: the key, the stream number and the index of the next word.
pub struct RngState {
    pub seed: Seq<u8>,
    pub stream: u64,
    pub word_pos: int,
}

/// The word that ChaCha20 with this key and stream number yields at this index.
pub uninterp spec fn chacha20_word(seed: Seq<u8>, stream: u64, word_pos: int) -> u32;

/// What shuffling `items` with ChaCha20 at this state leaves: the shuffled items and the
/// index of the next unread word.
pub uninterp spec fn shuffle_outcome(
    items: Seq<usize>,
    seed: Seq<u8>,
    stream: u64,
    word_pos: int,
) -> (Seq<usize>, int);

/// The next word of the stream.
pub open spec fn word(s: RngState) -> u32 {
    chacha20_word(s.seed, s.stream, s.word_pos)
}

/// The stream after `count` words have been read. The word index runs cyclically.
pub open spec fn skip(s: RngState, count: nat) -> RngState {
    if count == 0 {
        s
    } else {
        RngState { word_pos: (s.word_pos + count) % (STREAM_WORDS as int), ..s }
    }
}

/// Reading on is reading more.
pub proof fn lemma_skip(s: RngState, a: nat, b: nat)
    ensures
        skip(skip(s, a), b) == skip(s, a + b),
{
    let m = STREAM_WORDS as int;
    assert(((s.word_pos + a) % m + b) % m == (s.word_pos + a + b) % m);
}

/// The `i`-th word of the stream, counted from the next one.
pub open spec fn word_at(s: RngState, i: nat) -> u32 {
    word(skip(s, i))
}

/// The words of a stream are those of its key and number, one after the other from where it
/// stands; after the last one the first comes again.
pub proof fn law_words_follow_each_other(s: RngState, a: nat, i: nat)
    requires
        0 <= s.word_pos < STREAM_WORDS,
    ensures
        word_at(s, i) == chacha20_word(
            s.seed,
            s.stream,
            (s.word_pos + i) % (STREAM_WORDS as int),
        ),
        word_at(skip(s, a), i) == word_at(s, a + i),
        skip(s, a).seed == s.seed,
        skip(s, a).stream == s.stream,
{
    lemma_skip(s, a, i);
    if i == 0 {
        assert(s.word_pos % (STREAM_WORDS as int) == s.word_pos);
    }
}

/// A seed opens the stream with number zero at its first word.
pub proof fn law_seed_opens_its_stream(seed: Seq<u8>, i: nat)
    requires
        i < STREAM_WORDS,
    ensures
        word_at(seeded(seed), i) == chacha20_word(seed, 0, i as int),
{
    law_words_follow_each_other(seeded(seed), 0, i);
    assert((i as int) % (STREAM_WORDS as int) == i);
}

/// The state right after seeding: stream number zero, at the first word.
pub open spec fn seeded(seed: Seq<u8>) -> RngState {
    RngState { seed, stream: 0, word_pos: 0 }
}

/// The numbers `0, 1, .., n - 1`.
pub open spec fn identity_perm(n: nat) -> Seq<usize> {
    Seq::new(n, |i: int| i as usize)
}

/// `p` lists every number below `n` exactly once.
pub open spec fn is_permutation(p: Seq<usize>, n: nat) -> bool {
    &&& p.len() == n
    &&& forall|i: int| 0 <= i < n ==> #[trigger] p[i] < n
    &&& forall|i: int, j: int| 0 <= i < j < n ==> p[i] != p[j]
    &&& forall|v: usize| v < n ==> #[trigger] p.contains(v)
}

/// The permutation drawn at a state.
pub open spec fn drawn_perm(s: RngState, n: nat) -> Seq<usize> {
    shuffle_outcome(identity_perm(n), s.seed, s.stream, s.word_pos).0
}

/// The state that drawing a permutation leaves.
pub open spec fn after_perm(s: RngState, n: nat) -> RngState {
    RngState {
        word_pos: shuffle_outcome(identity_perm(n), s.seed, s.stream, s.word_pos).1,
        ..s
    }
}

/// Reads one word of a ChaCha20 stream: `ChaCha20Rng::from_seed`, `set_stream`,
/// `set_word_pos`, then `next_u32` and `get_word_pos`. The word is a function of key,
/// stream number and index alone, and reading it moves the index on by one, cyclically.
#[verifier::external_body]
fn chacha20_next(seed: [u8; 32], stream: u64, word_pos: u128) -> (r: (u32, u128))
    ensures
        r.0 == chacha20_word(seed@, stream, word_pos as int),
        r.1 == (word_pos + 1) % (STREAM_WORDS as int),
{
    let mut rng = ChaCha20Rng::from_seed(seed);
    rng.set_stream(stream);
    rng.set_word_pos(word_pos);
    let w = rng.next_u32();
    (w, rng.get_word_pos())
}

/// Shuffles with `rand`'s `SliceRandom::shuffle` on a ChaCha20 stream. Order and final
/// index are functions of the items and the state of the stream; the items themselves
/// are only reordered.
#[verifier::external_body]
fn chacha20_shuffle(seed: [u8; 32], stream: u64, word_pos: u128, items: &mut Vec<usize>) -> (r: u128)
    ensures
        (final(items)@, r as int) == shuffle_outcome(old(items)@, seed@, stream, word_pos as int),
        final(items)@.to_multiset() == old(items)@.to_multiset(),
{
    let mut rng = ChaCha20Rng::from_seed(seed);
    rng.set_stream(stream);
    rng.set_word_pos(word_pos);
    items.shuffle(&mut rng);
    rng.get_word_pos()
}

/// Draws 32 bytes from `rand::rng`, the generator of the thread that the operating system
/// seeds, by `fill_bytes`. Nothing is promised of them.
#[verifier::external_body]
fn os_bytes() -> (r: [u8; 32]) {
    let mut bytes = [0u8; 32];
    rand::rng().fill_bytes(&mut bytes);
    bytes
}

/// These bytes were drawn from the generator that the operating system seeds. Which bytes they
/// are is left to chance.
pub closed spec fn from_chance(bytes: [u8; 32]) -> bool {
    call_ensures(os_bytes, (), bytes)
}

/// 32 bytes drawn at random.
pub(crate) fn chance_bytes() -> (r: [u8; 32])
    ensures
        from_chance(r),
{
    os_bytes()
}

/// 32-byte seed of a mask stream.
#[derive(Debug, Clone, Copy)]
pub struct MaskSeed(pub [u8; 32]);

impl MaskSeed {
    /// Draws a fresh seed at random. Which one is left to chance.
    pub fn from_os_rng() -> (r: MaskSeed)
        ensures
            from_chance(r.0),
    {
        MaskSeed(chance_bytes())
    }

    /// Deterministic seed.
    pub fn from_bytes(bytes: [u8; 32]) -> (r: MaskSeed)
        ensures
            r.0 == bytes,
    {
        MaskSeed(bytes)
    }

    /// The stream that this seed opens.
    pub fn rng(&self) -> (r: MaskRng)
        ensures
            r@ == seeded(self.0@),
    {
        MaskRng { seed: self.0, stream: 0, word_pos: 0 }
    }
}

impl Default for MaskSeed {
    /// A fresh seed, drawn at random.
    fn default() -> (r: MaskSeed)
        ensures
            from_chance(r.0),
    {
        MaskSeed::from_os_rng()
    }
}

/// A ChaCha20 stream, held as its key, stream number and word index.
#[derive(Debug, Clone, Copy)]
pub struct MaskRng {
    seed: [u8; 32],
    stream: u64,
    word_pos: u128,
}

impl View for MaskRng {
    type V = RngState;

    closed spec fn view(&self) -> RngState {
        RngState { seed: self.seed@, stream: self.stream, word_pos: self.word_pos as int }
    }
}

impl MaskRng {
    /// The stream with this key, number and word index.
    pub fn at(seed: [u8; 32], stream: u64, word_pos: u128) -> (r: MaskRng)
        ensures
            r@ == (RngState { seed: seed@, stream, word_pos: word_pos as int }),
    {
        MaskRng { seed, stream, word_pos }
    }

    /// The key.
    pub fn seed(&self) -> (r: [u8; 32])
        ensures
            r@ == self@.seed,
    {
        self.seed
    }

    /// The stream number.
    pub fn stream(&self) -> (r: u64)
        ensures
            r == self@.stream,
    {
        self.stream
    }

    /// The index of the next word.
    pub fn word_pos(&self) -> (r: u128)
        ensures
            r == self@.word_pos,
    {
        self.word_pos
    }

    /// Moves to another word index.
    pub fn set_word_pos(&mut self, word_pos: u128)
        ensures
            final(self)@ == (RngState { word_pos: word_pos as int, ..old(self)@ }),
    {
        self.word_pos = word_pos;
    }

    /// Moves to another stream number, at the same word index.
    pub fn set_stream(&mut self, stream: u64)
        ensures
            final(self)@ == (RngState { stream, ..old(self)@ }),
    {
        self.stream = stream;
    }

    /// Reads the next word.
    pub fn next_u32(&mut self) -> (r: u32)
        ensures
            r == word(old(self)@),
            final(self)@ == skip(old(self)@, 1),
    {
        let (w, pos) = chacha20_next(self.seed, self.stream, self.word_pos);
        self.word_pos = pos;
        w
    }

    /// Draws a permutation of `0..n`.
    pub fn permutation(&mut self, n: usize) -> (r: Vec<usize>)
        ensures
            r@ == drawn_perm(old(self)@, n as nat),
            is_permutation(r@, n as nat),
            final(self)@ == after_perm(old(self)@, n as nat),
    {
        let mut items: Vec<usize> = Vec::new();
        for i in 0..n
            invariant
                items@.len() == i,
                forall|j: int| 0 <= j < i ==> #[trigger] items@[j] == j,
        {
            items.push(i);
        }
        assert(items@ =~= identity_perm(n as nat));
        self.word_pos = chacha20_shuffle(self.seed, self.stream, self.word_pos, &mut items);
        proof {
            lemma_reordered_identity(items@, n as nat);
        }
        items
    }
}

/// A reordering of `0..n` lists every number below `n` exactly once.
proof fn lemma_reordered_identity(p: Seq<usize>, n: nat)
    requires
        n <= usize::MAX,
        p.to_multiset() == identity_perm(n).to_multiset(),
    ensures
        is_permutation(p, n),
{
    let id = identity_perm(n);
    vstd::seq_lib::to_multiset_len(p);
    vstd::seq_lib::to_multiset_len(id);
    id.lemma_multiset_has_no_duplicates();
    p.lemma_multiset_has_no_duplicates_conv();
    assert forall|i: int| 0 <= i < n implies #[trigger] p[i] < n by {
        vstd::seq_lib::to_multiset_contains(p, p[i]);
        vstd::seq_lib::to_multiset_contains(id, p[i]);
    }
    assert forall|v: usize| v < n implies #[trigger] p.contains(v) by {
        assert(id[v as int] == v);
        vstd::seq_lib::to_multiset_contains(p, v);
        vstd::seq_lib::to_multiset_contains(id, v);
    }
}

} // verus!
