//! Content hashing: SHA-256 over a byte stream, rendered as lowercase hexadecimal.

use vstd::prelude::*;
use vstd::string::*;

verus! {

/// Size in bytes of the chunks in which a caller is expected to stream a file.
pub const CHUNK_SIZE: usize = 1024;

/// The longest content, in bytes, that has a SHA-256 digest: the algorithm
/// counts the length of its input in bits, in 64 bits.
pub const MAX_CONTENT_LENGTH: u64 = 0x1fff_ffff_ffff_ffff;

/// A SHA-256 computation in progress, held as `sha2::Sha256` keeps it.
/// Nothing inside it is visible to the verifier: the contracts below speak of
/// it through `absorbed` only.
#[verifier::external_body]
pub struct Sha256State {
    inner: sha2::Sha256,
}

/// The bytes that a running computation has taken in so far, in order.
pub uninterp spec fn absorbed(state: Sha256State) -> Seq<u8>;

/// The SHA-256 digest of a byte string, as `sha2` computes it.
pub uninterp spec fn sha256(data: Seq<u8>) -> Seq<u8>;

/// `sha2::Digest::new` for `Sha256`: a fresh computation has taken in nothing.
#[verifier::external_body]
fn sha256_start() -> (state: Sha256State)
    ensures
        absorbed(state) == Seq::<u8>::empty(),
{
    Sha256State { inner: <sha2::Sha256 as sha2::Digest>::new() }
}

/// `sha2::Digest::update`: the data is appended to what was taken in before.
/// The bound keeps the hasher's count of blocks and bits within 64 bits.
#[verifier::external_body]
fn sha256_update(state: &mut Sha256State, data: &[u8])
    requires
        absorbed(*old(state)).len() + data@.len() <= MAX_CONTENT_LENGTH,
    ensures
        absorbed(*final(state)) == absorbed(*old(state)) + data@,
{
    sha2::Digest::update(&mut state.inner, data)
}

/// `sha2::Digest::finalize`: the 32-byte digest of everything taken in.
#[verifier::external_body]
fn sha256_finalize(state: Sha256State) -> (digest: [u8; 32])
    requires
        absorbed(state).len() <= MAX_CONTENT_LENGTH,
    ensures
        digest@ == sha256(absorbed(state)),
{
    sha2::Digest::finalize(state.inner).into()
}

/// The sixteen lowercase hexadecimal digits, by value.
pub open spec fn hex_alphabet() -> Seq<char> {
    seq!['0', '1', '2', '3', '4', '5', '6', '7', '8', '9', 'a', 'b', 'c', 'd', 'e', 'f']
}

/// The lowercase hexadecimal digit for a value below sixteen.
pub open spec fn hex_digit(nibble: int) -> char
    recommends
        0 <= nibble < 16,
{
    hex_alphabet()[nibble]
}

/// Two lowercase hexadecimal digits per byte, high half first.
pub open spec fn hex_lower(bytes: Seq<u8>) -> Seq<char> {
    Seq::new(
        2 * bytes.len(),
        |i: int|
            if i % 2 == 0 {
                hex_digit(bytes[i / 2] as int / 16)
            } else {
                hex_digit(bytes[i / 2] as int % 16)
            },
    )
}

/// Whether a character is one of `0`-`9` or `a`-`f`.
pub open spec fn is_lower_hex_char(c: char) -> bool {
    ('0' <= c && c <= '9') || ('a' <= c && c <= 'f')
}

/// Whether a text has the shape of a rendered SHA-256 digest:
/// exactly 64 lowercase hexadecimal characters.
pub open spec fn is_hex_digest(text: Seq<char>) -> bool {
    &&& text.len() == 64
    &&& forall|i: int| 0 <= i < text.len() ==> is_lower_hex_char(#[trigger] text[i])
}

/// The content hash of a byte string: its SHA-256 digest in lowercase hexadecimal.
pub open spec fn content_hash(data: Seq<u8>) -> Seq<char> {
    hex_lower(sha256(data))
}

/// Every character of a hexadecimal rendering is a lowercase hexadecimal digit,
/// and there are two of them per byte.
pub proof fn lemma_hex_lower_shape(bytes: Seq<u8>)
    ensures
        hex_lower(bytes).len() == 2 * bytes.len(),
        forall|i: int|
            0 <= i < hex_lower(bytes).len() ==> is_lower_hex_char(#[trigger] hex_lower(bytes)[i]),
{
    assert forall|i: int| 0 <= i < hex_lower(bytes).len() implies is_lower_hex_char(
        #[trigger] hex_lower(bytes)[i],
    ) by {
        let b = bytes[i / 2] as int;
        lemma_hex_digit_is_lower_hex(b / 16);
        lemma_hex_digit_is_lower_hex(b % 16);
    }
}

/// Each of the sixteen digits is a lowercase hexadecimal character.
pub proof fn lemma_hex_digit_is_lower_hex(nibble: int)
    requires
        0 <= nibble < 16,
    ensures
        is_lower_hex_char(hex_digit(nibble)),
{
}

/// Different values below sixteen have different digits.
pub proof fn lemma_hex_digit_injective(a: int, b: int)
    requires
        0 <= a < 16,
        0 <= b < 16,
        hex_digit(a) == hex_digit(b),
    ensures
        a == b,
{
}

/// Hexadecimal rendering loses nothing: byte strings with the same rendering are equal.
pub proof fn lemma_hex_lower_injective(a: Seq<u8>, b: Seq<u8>)
    requires
        hex_lower(a) == hex_lower(b),
    ensures
        a == b,
{
    assert(hex_lower(a).len() == 2 * a.len());
    assert(hex_lower(b).len() == 2 * b.len());
    assert(a.len() == b.len());
    assert forall|k: int| 0 <= k < a.len() implies a[k] == b[k] by {
        let x = a[k] as int;
        let y = b[k] as int;
        assert(hex_lower(a)[2 * k] == hex_digit(x / 16));
        assert(hex_lower(b)[2 * k] == hex_digit(y / 16));
        assert(hex_lower(a)[2 * k + 1] == hex_digit(x % 16));
        assert(hex_lower(b)[2 * k + 1] == hex_digit(y % 16));
        lemma_hex_digit_injective(x / 16, y / 16);
        lemma_hex_digit_injective(x % 16, y % 16);
    }
    assert(a =~= b);
}

/// Equal contents have equal content hashes, and two contents with the same
/// content hash have the same SHA-256 digest.
pub proof fn lemma_content_hash_follows_digest(a: Seq<u8>, b: Seq<u8>)
    ensures
        a == b ==> content_hash(a) == content_hash(b),
        content_hash(a) == content_hash(b) <==> sha256(a) == sha256(b),
{
    if content_hash(a) == content_hash(b) {
        lemma_hex_lower_injective(sha256(a), sha256(b));
    }
}

/// The one-character text of a hexadecimal digit.
fn hex_digit_text(nibble: u8) -> (text: &'static str)
    requires
        nibble < 16,
    ensures
        text@ == seq![hex_digit(nibble as int)],
{
    proof {
        reveal_strlit("0");
        reveal_strlit("1");
        reveal_strlit("2");
        reveal_strlit("3");
        reveal_strlit("4");
        reveal_strlit("5");
        reveal_strlit("6");
        reveal_strlit("7");
        reveal_strlit("8");
        reveal_strlit("9");
        reveal_strlit("a");
        reveal_strlit("b");
        reveal_strlit("c");
        reveal_strlit("d");
        reveal_strlit("e");
        reveal_strlit("f");
    }
    let text = match nibble {
        0 => "0",
        1 => "1",
        2 => "2",
        3 => "3",
        4 => "4",
        5 => "5",
        6 => "6",
        7 => "7",
        8 => "8",
        9 => "9",
        10 => "a",
        11 => "b",
        12 => "c",
        13 => "d",
        14 => "e",
        _ => "f",
    };
    assert(text@ =~= seq![hex_digit(nibble as int)]);
    text
}

/// Renders bytes as lowercase hexadecimal text.
pub fn to_hex(bytes: &[u8]) -> (text: String)
    ensures
        text@ == hex_lower(bytes@),
{
    let mut text = String::new();
    let mut i: usize = 0;
    while i < bytes.len()
        invariant
            i <= bytes.len(),
            text@ == hex_lower(bytes@.take(i as int)),
        decreases bytes.len() - i,
    {
        let byte: u8 = bytes[i];
        let ghost before = text@;
        text.append(hex_digit_text(byte / 16));
        text.append(hex_digit_text(byte % 16));
        proof {
            let shorter = bytes@.take(i as int);
            let longer = bytes@.take(i as int + 1);
            assert(text@ == before + seq![hex_digit(byte as int / 16)] + seq![
                hex_digit(byte as int % 16),
            ]);
            assert forall|k: int| 0 <= k < 2 * longer.len() implies text@[k] == hex_lower(
                longer,
            )[k] by {
                if k < 2 * i {
                    assert(text@[k] == hex_lower(shorter)[k]);
                    assert(shorter[k / 2] == longer[k / 2]);
                } else {
                    assert(longer[k / 2] == byte);
                }
            }
            assert(text@ =~= hex_lower(longer));
        }
        i += 1;
    }
    assert(bytes@.take(i as int) =~= bytes@);
    text
}

/// The content hash of one file: 64 lowercase hexadecimal characters.
/// A value of this type can only come out of a finished hash computation.
pub struct ContentHash {
    hex: String,
}

impl View for ContentHash {
    type V = Seq<char>;

    closed spec fn view(&self) -> Seq<char> {
        self.hex@
    }
}

impl ContentHash {
    /// A content hash always has the shape of a rendered digest.
    #[verifier::type_invariant]
    pub closed spec fn well_formed(self) -> bool {
        is_hex_digest(self.hex@)
    }

    /// A well-formed content hash is 64 lowercase hexadecimal characters.
    pub proof fn lemma_well_formed_is_digest(self)
        requires
            self.well_formed(),
        ensures
            is_hex_digest(self@),
    {
    }

    /// The hash as text.
    pub fn as_str(&self) -> (text: &str)
        ensures
            text@ == self@,
            is_hex_digest(text@),
    {
        proof {
            use_type_invariant(self);
        }
        self.hex.as_str()
    }

    /// A copy of the hash.
    pub fn duplicate(&self) -> (copy: ContentHash)
        ensures
            copy@ == self@,
    {
        proof {
            use_type_invariant(self);
        }
        ContentHash { hex: self.hex.clone() }
    }
}

/// What one attempt to read the next chunk of a file gave.
pub enum ReadOutcome<'a> {
    /// The bytes that were read; none at the end of the file.
    Data(&'a [u8]),
    /// The file could not be read.
    Failed,
}

/// Where a streamed hash computation stands after one read.
pub enum HashProgress {
    /// More of the file is expected.
    Reading(HashSession),
    /// The end of the file was reached.
    Done(ContentHash),
    /// The file became unreadable, or is too long to have a digest: there is
    /// no hash, not even a partial one.
    Failed,
}

/// A hash computation over a file that is read chunk by chunk, so that the
/// whole file never has to be in memory.
pub struct HashSession {
    state: Sha256State,
    taken: u64,
}

impl HashSession {
    /// The bytes fed so far, in order.
    pub closed spec fn absorbed(&self) -> Seq<u8> {
        absorbed(self.state)
    }

    /// The session counts what it has taken in, and that is never more than
    /// has a digest.
    #[verifier::type_invariant]
    pub closed spec fn well_formed(self) -> bool {
        self.taken == absorbed(self.state).len() && self.taken <= MAX_CONTENT_LENGTH
    }

    /// Takes in one chunk, unless the content would become too long.
    fn take_in(self, chunk: &[u8]) -> (next: Option<HashSession>)
        ensures
            next is Some <==> self.absorbed().len() + chunk@.len() <= MAX_CONTENT_LENGTH,
            next matches Some(session) ==> session.absorbed() == self.absorbed() + chunk@,
    {
        proof {
            use_type_invariant(&self);
        }
        let HashSession { state, taken } = self;
        let length = chunk.len() as u64;
        if length > MAX_CONTENT_LENGTH - taken {
            return None;
        }
        let mut state = state;
        sha256_update(&mut state, chunk);
        Some(HashSession { state, taken: taken + length })
    }

    /// Ends the computation and renders the digest.
    pub fn finish(self) -> (hash: ContentHash)
        ensures
            hash@ == content_hash(self.absorbed()),
            is_hex_digest(hash@),
    {
        proof {
            use_type_invariant(&self);
        }
        let digest = sha256_finalize(self.state);
        let hex = to_hex(digest.as_slice());
        proof {
            lemma_hex_lower_shape(digest@);
        }
        ContentHash { hex }
    }

    /// Advances the computation by the outcome of one read: a failed read ends
    /// it without a hash, an empty read is the end of the file, and any other
    /// chunk is taken in, unless the content would become too long to have a
    /// digest.
    pub fn feed(self, read: ReadOutcome<'_>) -> (progress: HashProgress)
        ensures
            match read {
                ReadOutcome::Failed => progress is Failed,
                ReadOutcome::Data(chunk) => if chunk@.len() == 0 {
                    &&& progress matches HashProgress::Done(hash)
                    &&& hash@ == content_hash(self.absorbed())
                } else if self.absorbed().len() + chunk@.len() > MAX_CONTENT_LENGTH {
                    progress is Failed
                } else {
                    &&& progress matches HashProgress::Reading(next)
                    &&& next.absorbed() == self.absorbed() + chunk@
                },
            },
    {
        match read {
            ReadOutcome::Failed => HashProgress::Failed,
            ReadOutcome::Data(chunk) => {
                if chunk.len() == 0 {
                    HashProgress::Done(self.finish())
                } else {
                    match self.take_in(chunk) {
                        Some(session) => HashProgress::Reading(session),
                        None => HashProgress::Failed,
                    }
                }
            },
        }
    }
}

/// Computes content hashes.
pub struct HashCalculator {}

impl HashCalculator {
    /// A calculator. It keeps nothing between two hashes.
    pub fn new() -> (calculator: Self) {
        HashCalculator {  }
    }

    /// Starts a streamed computation that has taken in nothing yet.
    pub fn begin(&self) -> (session: HashSession)
        ensures
            session.absorbed() == Seq::<u8>::empty(),
    {
        HashSession { state: sha256_start(), taken: 0 }
    }

    /// The content hash of bytes that are already in memory; `None` where
    /// the content is too long to have a digest.
    pub fn calculate_hash(&self, content: &[u8]) -> (hash: Option<ContentHash>)
        ensures
            hash is Some <==> content@.len() <= MAX_CONTENT_LENGTH,
            hash matches Some(h) ==> h@ == content_hash(content@) && is_hex_digest(h@),
    {
        assert(Seq::<u8>::empty() + content@ =~= content@);
        match self.begin().take_in(content) {
            Some(session) => Some(session.finish()),
            None => None,
        }
    }
}

} // verus!
