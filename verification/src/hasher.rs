//! Content digests: XXH3-64 of a file's bytes, written as sixteen lowercase
//! hexadecimal characters.

use vstd::prelude::*;
use xxhash_rust::xxh3::Xxh3;

verus! {

/// The streaming XXH3 state of `xxhash_rust` (`xxh3::Xxh3`), opaque to the
/// verifier.
#[verifier::external_type_specification]
#[verifier::external_body]
pub struct ExXxh3(Xxh3);

/// The bytes a hasher has been fed since it was created, in order. The
/// verifier cannot look into the state: this names what the specifications
/// of `Xxh3::new` and `Xxh3::update` below say the state keeps track of.
pub uninterp spec fn absorbed(state: Xxh3) -> Seq<u8>;

/// Whether a hasher was made with the default seed and secret, as
/// `Xxh3::new` makes it. A state made with a seed or a secret of its own
/// hashes the same bytes to another value, and nothing is said of it here.
pub uninterp spec fn default_keyed(state: Xxh3) -> bool;

/// What `Xxh3::digest` returns for a default-keyed state that has been fed
/// `input`: the 64-bit XXH3 hash of `input` with the default seed and
/// secret. It depends on the bytes alone; the algorithm itself is not
/// written down here.
pub uninterp spec fn xxh3_64(input: Seq<u8>) -> u64;

/// Trusted of `Xxh3::new`: a fresh state has been fed nothing and has the
/// default seed and secret.
pub assume_specification[ Xxh3::new ]() -> (state: Xxh3)
    ensures
        absorbed(state) == Seq::<u8>::empty(),
        default_keyed(state),
;

/// Trusted of `Xxh3::update`: the chunk is appended to what the state has
/// been fed, and seed and secret stay what they were. It returns for every
/// chunk, the empty one too, and how the bytes were split into chunks leaves
/// no trace.
pub assume_specification[ Xxh3::update ](state: &mut Xxh3, input: &[u8])
    ensures
        absorbed(*final(state)) == absorbed(*old(state)) + input@,
        default_keyed(*final(state)) == default_keyed(*old(state)),
;

/// Trusted of `Xxh3::digest`: for a state with the default seed and secret
/// the result is the hash of everything fed so far. The state is left as it
/// was. Of a state keyed otherwise nothing is claimed.
pub assume_specification[ Xxh3::digest ](state: &Xxh3) -> (value: u64)
    ensures
        default_keyed(*state) ==> value == xxh3_64(absorbed(*state)),
;

/// Bytes handed to the hasher at a time by [`hash_bytes`].
pub const CHUNK_SIZE: usize = 8192;

/// Width of a digest in characters.
pub const DIGEST_WIDTH: usize = 16;

/// The lowercase hexadecimal digit for a value below sixteen.
pub open spec fn hex_digit(nibble: int) -> char {
    "0123456789abcdef"@[nibble]
}

/// The four bits of `value` written at `position`, counted from the most
/// significant digit.
pub open spec fn nibble(value: u64, position: int) -> u64 {
    (value >> ((60 - 4 * position) as u64)) & 0xf
}

/// `value` as sixteen lowercase hexadecimal digits, most significant first,
/// padded with zeros.
pub open spec fn hex16(value: u64) -> Seq<char> {
    Seq::new(16, |position: int| hex_digit(nibble(value, position) as int))
}

/// The digest of a file's content: its XXH3-64 value in hexadecimal.
pub open spec fn content_digest(content: Seq<u8>) -> Seq<char> {
    hex16(xxh3_64(content))
}

/// Whether `c` is one of `0`..`9`, `a`..`f`.
pub open spec fn is_lower_hex(c: char) -> bool {
    ('0' <= c && c <= '9') || ('a' <= c && c <= 'f')
}

/// Writes `value` as sixteen lowercase hexadecimal digits.
pub fn to_hex(value: u64) -> (text: String)
    ensures
        text@ == hex16(value),
{
    let digits = "0123456789abcdef";
    proof {
        reveal_strlit("0123456789abcdef");
    }
    let mut text = String::new();
    let mut position: u64 = 0;
    while position < 16
        invariant
            position <= 16,
            digits@ == "0123456789abcdef"@,
            digits@.len() == 16,
            digits.is_ascii(),
            text@ == hex16(value).subrange(0, position as int),
        decreases 16 - position,
    {
        let shift: u64 = 60 - 4 * position;
        let digit: u64 = (value >> shift) & 0xf;
        assert(digit < 16) by (bit_vector)
            requires
                digit == (value >> shift) & 0xf,
        ;
        let at = digit as usize;
        text.append(digits.substring_ascii(at, at + 1));
        assert(text@ == hex16(value).subrange(0, position + 1));
        position += 1;
    }
    text
}

/// A streaming content hasher: feed it a file's bytes chunk by chunk, then
/// ask for the digest. Its state always has the default seed and secret.
pub struct ContentHasher {
    state: Xxh3,
}

impl View for ContentHasher {
    type V = Seq<u8>;

    /// The bytes fed so far.
    closed spec fn view(&self) -> Seq<u8> {
        absorbed(self.state)
    }
}

impl ContentHasher {
    #[verifier::type_invariant]
    spec fn keyed_by_default(self) -> bool {
        default_keyed(self.state)
    }

    /// A hasher that has been fed nothing.
    pub fn new() -> (hasher: Self)
        ensures
            hasher@ == Seq::<u8>::empty(),
    {
        ContentHasher { state: Xxh3::new() }
    }

    /// Feeds one chunk.
    pub fn update(&mut self, chunk: &[u8])
        ensures
            final(self)@ == old(self)@ + chunk@,
    {
        proof {
            use_type_invariant(&*self);
        }
        // The state is taken out while it is fed, so that the hasher holds a
        // default-keyed state at every moment.
        let mut state = Xxh3::new();
        std::mem::swap(&mut self.state, &mut state);
        state.update(chunk);
        self.state = state;
    }

    /// The digest of everything fed so far.
    pub fn finish(&self) -> (digest: String)
        ensures
            digest@ == content_digest(self@),
    {
        proof {
            use_type_invariant(self);
        }
        to_hex(self.state.digest())
    }
}

/// The digest of `content`, streamed through a [`ContentHasher`] in chunks
/// of [`CHUNK_SIZE`] bytes.
pub fn hash_bytes(content: &[u8]) -> (digest: String)
    ensures
        digest@ == content_digest(content@),
{
    let mut hasher = ContentHasher::new();
    let mut offset: usize = 0;
    while offset < content.len()
        invariant
            offset <= content.len(),
            hasher@ == content@.subrange(0, offset as int),
        decreases content.len() - offset,
    {
        let end = if content.len() - offset > CHUNK_SIZE {
            offset + CHUNK_SIZE
        } else {
            content.len()
        };
        hasher.update(&content[offset..end]);
        assert(hasher@ == content@.subrange(0, end as int));
        offset = end;
    }
    assert(content@.subrange(0, offset as int) == content@);
    hasher.finish()
}

/// A digest is sixteen characters, each a lowercase hexadecimal digit.
pub proof fn lemma_digest_shape(value: u64)
    ensures
        hex16(value).len() == DIGEST_WIDTH,
        forall|i: int| 0 <= i < 16 ==> is_lower_hex(#[trigger] hex16(value)[i]),
{
    reveal_strlit("0123456789abcdef");
    assert forall|i: int| 0 <= i < 16 implies is_lower_hex(#[trigger] hex16(value)[i]) by {
        let shift = (60 - 4 * i) as u64;
        let digit = nibble(value, i);
        assert(digit < 16) by (bit_vector)
            requires
                digit == (value >> shift) & 0xf,
        ;
    }
}

/// Distinct 64-bit values never share a digest: the full digest decides equality.
pub proof fn lemma_hex16_injective(a: u64, b: u64)
    requires
        hex16(a) == hex16(b),
    ensures
        a == b,
{
    reveal_strlit("0123456789abcdef");
    assert forall|i: int| 0 <= i < 16 implies nibble(a, i) == nibble(b, i) by {
        let shift = (60 - 4 * i) as u64;
        let x = nibble(a, i);
        let y = nibble(b, i);
        assert(x < 16) by (bit_vector)
            requires
                x == (a >> shift) & 0xf,
        ;
        assert(y < 16) by (bit_vector)
            requires
                y == (b >> shift) & 0xf,
        ;
        assert(hex16(a)[i] == hex_digit(x as int));
        assert(hex16(b)[i] == hex_digit(y as int));
    }
    assert(nibble(a, 0) == nibble(b, 0) && nibble(a, 1) == nibble(b, 1) && nibble(a, 2) == nibble(
        b,
        2,
    ) && nibble(a, 3) == nibble(b, 3) && nibble(a, 4) == nibble(b, 4) && nibble(a, 5) == nibble(
        b,
        5,
    ) && nibble(a, 6) == nibble(b, 6) && nibble(a, 7) == nibble(b, 7) && nibble(a, 8) == nibble(
        b,
        8,
    ) && nibble(a, 9) == nibble(b, 9) && nibble(a, 10) == nibble(b, 10) && nibble(a, 11)
        == nibble(b, 11) && nibble(a, 12) == nibble(b, 12) && nibble(a, 13) == nibble(b, 13)
        && nibble(a, 14) == nibble(b, 14) && nibble(a, 15) == nibble(b, 15));
    assert(a == b) by (bit_vector)
        requires
            (a >> 60) & 0xf == (b >> 60) & 0xf,
            (a >> 56) & 0xf == (b >> 56) & 0xf,
            (a >> 52) & 0xf == (b >> 52) & 0xf,
            (a >> 48) & 0xf == (b >> 48) & 0xf,
            (a >> 44) & 0xf == (b >> 44) & 0xf,
            (a >> 40) & 0xf == (b >> 40) & 0xf,
            (a >> 36) & 0xf == (b >> 36) & 0xf,
            (a >> 32) & 0xf == (b >> 32) & 0xf,
            (a >> 28) & 0xf == (b >> 28) & 0xf,
            (a >> 24) & 0xf == (b >> 24) & 0xf,
            (a >> 20) & 0xf == (b >> 20) & 0xf,
            (a >> 16) & 0xf == (b >> 16) & 0xf,
            (a >> 12) & 0xf == (b >> 12) & 0xf,
            (a >> 8) & 0xf == (b >> 8) & 0xf,
            (a >> 4) & 0xf == (b >> 4) & 0xf,
            (a >> 0) & 0xf == (b >> 0) & 0xf,
    ;
}

} // verus!
