//! Content fingerprints: SHA-256 over a file's bytes, rendered as lowercase
//! hexadecimal.  The digest itself comes from the `sha2` crate behind trusted
//! items; the hex rendering and the byte accounting are verified.

use vstd::prelude::*;
use sha2::Digest;

verus! {

/// The lowercase hexadecimal digit for a value below sixteen.
pub open spec fn hex_char_of(n: u8) -> char {
    if n == 0 {
        '0'
    } else if n == 1 {
        '1'
    } else if n == 2 {
        '2'
    } else if n == 3 {
        '3'
    } else if n == 4 {
        '4'
    } else if n == 5 {
        '5'
    } else if n == 6 {
        '6'
    } else if n == 7 {
        '7'
    } else if n == 8 {
        '8'
    } else if n == 9 {
        '9'
    } else if n == 10 {
        'a'
    } else if n == 11 {
        'b'
    } else if n == 12 {
        'c'
    } else if n == 13 {
        'd'
    } else if n == 14 {
        'e'
    } else {
        'f'
    }
}

/// Lowercase hexadecimal rendering of a byte sequence, two digits per byte,
/// high nibble first.
pub open spec fn hex_of(bytes: Seq<u8>) -> Seq<char> {
    Seq::new(
        bytes.len() * 2,
        |i: int|
            if i % 2 == 0 {
                hex_char_of(bytes[i / 2] / 16)
            } else {
                hex_char_of(bytes[i / 2] % 16)
            },
    )
}

/// The SHA-256 digest of a byte sequence, as the `sha2` crate computes it.
/// It depends on the bytes alone; the trusted items below state what little
/// else the crate documents (the digest is 32 bytes long).
pub uninterp spec fn sha256_of(bytes: Seq<u8>) -> Seq<u8>;

/// The content fingerprint of a byte sequence: its SHA-256 digest in
/// lowercase hexadecimal.
pub open spec fn fingerprint_of(bytes: Seq<u8>) -> Seq<char> {
    hex_of(sha256_of(bytes))
}

/// Relies on `sha2::Sha256` (an alias for a tower of generic wrapper types,
/// which is why the whole struct is opaque here): the incremental digest
/// state.
#[verifier::external_body]
struct DigestState {
    inner: sha2::Sha256,
}

impl DigestState {
    /// Relies on `sha2::Digest::new`: a fresh digest state over no input.
    #[verifier::external_body]
    fn fresh() -> DigestState {
        DigestState { inner: sha2::Sha256::new() }
    }

    /// Relies on `sha2::Digest::update`: absorbs the chunk into the state.
    #[verifier::external_body]
    fn absorb(&mut self, chunk: &[u8]) {
        self.inner.update(chunk);
    }
}

/// A streaming content hasher.  Callers feed the file's bytes in bounded
/// chunks, so memory use stays constant however large the file is; the ghost
/// field records the bytes fed so far, and the final fingerprint is pinned
/// to exactly those bytes.
pub struct ContentHasher {
    state: DigestState,
    fed: Ghost<Seq<u8>>,
}

impl ContentHasher {
    /// All bytes fed to this hasher so far.
    pub closed spec fn bytes_fed(&self) -> Seq<u8> {
        self.fed@
    }

    pub fn new() -> (r: ContentHasher)
        ensures
            r.bytes_fed() == Seq::<u8>::empty(),
    {
        ContentHasher { state: DigestState::fresh(), fed: Ghost(Seq::empty()) }
    }

    pub fn update(&mut self, chunk: &[u8])
        ensures
            final(self).bytes_fed() == old(self).bytes_fed() + chunk@,
    {
        self.state.absorb(chunk);
        self.fed = Ghost(self.fed@ + chunk@);
    }

    /// Relies on `sha2::Digest::finalize`: returns the SHA-256 digest (32
    /// bytes) of everything absorbed since `new`, which `update` has
    /// mirrored into `bytes_fed`.
    #[verifier::external_body]
    fn digest(self) -> (r: Vec<u8>)
        ensures
            r@ == sha256_of(self.bytes_fed()),
            r@.len() == 32,
    {
        self.state.inner.finalize().to_vec()
    }

    /// The fingerprint of everything fed so far: 64 lowercase hex digits.
    pub fn fingerprint(self) -> (r: String)
        ensures
            r@ == fingerprint_of(self.bytes_fed()),
            r@.len() == 64,
    {
        let ghost fed = self.bytes_fed();
        let d = self.digest();
        let r = bytes_to_hex(&d);
        proof {
            assert(r@ == hex_of(sha256_of(fed)));
        }
        r
    }
}

/// Relies on `String::push`: appends one character to the string.
#[verifier::external_body]
fn push_char(s: &mut String, c: char)
    ensures
        final(s)@ == old(s)@.push(c),
{
    s.push(c);
}

/// The lowercase hexadecimal digit for a value below sixteen.
pub fn hex_char(n: u8) -> (c: char)
    requires
        n < 16,
    ensures
        c == hex_char_of(n),
{
    if n == 0 {
        '0'
    } else if n == 1 {
        '1'
    } else if n == 2 {
        '2'
    } else if n == 3 {
        '3'
    } else if n == 4 {
        '4'
    } else if n == 5 {
        '5'
    } else if n == 6 {
        '6'
    } else if n == 7 {
        '7'
    } else if n == 8 {
        '8'
    } else if n == 9 {
        '9'
    } else if n == 10 {
        'a'
    } else if n == 11 {
        'b'
    } else if n == 12 {
        'c'
    } else if n == 13 {
        'd'
    } else if n == 14 {
        'e'
    } else {
        'f'
    }
}

/// Lowercase hexadecimal rendering of a byte vector.
pub fn bytes_to_hex(bytes: &Vec<u8>) -> (r: String)
    ensures
        r@ == hex_of(bytes@),
{
    let mut out = String::new();
    let mut i: usize = 0;
    while i < bytes.len()
        invariant
            i <= bytes@.len(),
            out@ =~= hex_of(bytes@).subrange(0, 2 * i as int),
        decreases bytes@.len() - i,
    {
        let b = bytes[i];
        push_char(&mut out, hex_char(b / 16));
        push_char(&mut out, hex_char(b % 16));
        proof {
            assert(hex_of(bytes@)[2 * i as int] == hex_char_of(b / 16));
            assert(hex_of(bytes@)[2 * i as int + 1] == hex_char_of(b % 16));
            assert(out@ =~= hex_of(bytes@).subrange(0, 2 * (i + 1) as int));
        }
        i += 1;
    }
    proof {
        assert(out@ =~= hex_of(bytes@));
    }
    out
}

/// One-shot fingerprint of an in-memory byte slice.
pub fn fingerprint_bytes(data: &[u8]) -> (r: String)
    ensures
        r@ == fingerprint_of(data@),
        r@.len() == 64,
{
    let mut h = ContentHasher::new();
    h.update(data);
    proof {
        assert(h.bytes_fed() =~= data@);
    }
    h.fingerprint()
}

/// Law: a fingerprint depends on the byte content alone, so hashing the same
/// bytes twice — in whatever order the work was scheduled — yields the same
/// fingerprint, and byte-for-byte identical files always fingerprint equal.
pub proof fn lemma_fingerprint_deterministic(b1: Seq<u8>, b2: Seq<u8>)
    requires
        b1 == b2,
    ensures
        fingerprint_of(b1) == fingerprint_of(b2),
{
}

} // verus!
