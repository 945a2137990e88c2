//! The mnemonic codec: 32 bytes of entropy to a checksummed phrase and back.
//!
//! The word list and the checksum belong to the `bip39` crate. This module
//! names what that crate computes and decides, from what its parser hands
//! back, whether a line of text stands for a secret.

use vstd::prelude::*;
use crate::secret::Secret;

verus! {

/// Why the phrase parser turned a text down, variant for variant as
/// `bip39::Error` has them.
#[derive(Clone, Copy, Debug, PartialEq, Eq)]
pub enum ParseFailure {
    /// The number of words, which is not 12, 15, 18, 21 or 24.
    BadWordCount(usize),
    /// The position of a word that the word list does not hold.
    UnknownWord(usize),
    /// A number of entropy bits that no phrase encodes.
    BadEntropyBitCount(usize),
    /// The last word does not carry the checksum of the others.
    InvalidChecksum,
    /// The words belong to more than one word list.
    AmbiguousLanguages,
}

/// Why a line of text is no secret.
#[derive(Clone, Copy, Debug, PartialEq, Eq)]
pub enum DecodeError {
    /// A word is not in the word list.
    UnknownWord,
    /// The phrase does not carry exactly 256 bits.
    BadLength,
    /// The embedded checksum does not match the payload.
    ChecksumMismatch,
}

/// The phrase that `bip39` writes for a given entropy: what
/// `Mnemonic::from_entropy` makes of the bytes, rendered by its `Display`
/// impl.
pub uninterp spec fn phrase_of(entropy: Seq<u8>) -> Seq<char>;

/// What `bip39` makes of a text: the answer of
/// `Mnemonic::parse_in_normalized` with the English word list, where it
/// accepts the text followed by `Mnemonic::to_entropy_array`. That is the
/// 33 bytes which the parser recovers together with the number of them that
/// are entropy, or the parser's refusal.
pub uninterp spec fn parse_of(text: Seq<char>) -> Result<(Seq<u8>, nat), ParseFailure>;

/// The parser's answer as contracts speak of it.
pub open spec fn parse_view(parsed: Result<([u8; 33], usize), ParseFailure>) -> Result<
    (Seq<u8>, nat),
    ParseFailure,
> {
    match parsed {
        Ok((bytes, len)) => Ok((bytes@, len as nat)),
        Err(e) => Err(e),
    }
}

/// The secret that a parser's answer stands for: the first 32 bytes where
/// the parser found exactly 32 bytes of entropy, and otherwise the reason
/// why there is none.
pub open spec fn decoded(parsed: Result<(Seq<u8>, nat), ParseFailure>) -> Result<
    Seq<u8>,
    DecodeError,
> {
    match parsed {
        Ok((bytes, len)) => if len == 32 {
            Ok(Seq::new(32, |i: int| bytes[i]))
        } else {
            Err(DecodeError::BadLength)
        },
        Err(ParseFailure::BadWordCount(_)) => Err(DecodeError::BadLength),
        Err(ParseFailure::BadEntropyBitCount(_)) => Err(DecodeError::BadLength),
        Err(ParseFailure::UnknownWord(_)) => Err(DecodeError::UnknownWord),
        Err(ParseFailure::AmbiguousLanguages) => Err(DecodeError::UnknownWord),
        Err(ParseFailure::InvalidChecksum) => Err(DecodeError::ChecksumMismatch),
    }
}

/// The secret that a text stands for, or why it stands for none.
pub open spec fn decode_spec(text: Seq<char>) -> Result<Seq<u8>, DecodeError> {
    decoded(parse_of(text))
}

/// A text that decodes, decodes to 32 bytes.
pub proof fn lemma_decoded_len(text: Seq<char>)
    ensures
        decode_spec(text) is Ok ==> decode_spec(text).unwrap().len() == 32,
{
}

/// The text is the phrase of the secret that it decodes to.
pub open spec fn is_canonical(text: Seq<char>) -> bool {
    decode_spec(text) is Ok && phrase_of(decode_spec(text).unwrap()) == text
}

/// A decoding result as contracts speak of it.
pub open spec fn secret_view(r: Result<Secret, DecodeError>) -> Result<Seq<u8>, DecodeError> {
    match r {
        Ok(s) => Ok(s@),
        Err(e) => Err(e),
    }
}

/// Calls `bip39::Mnemonic::from_entropy` and renders the mnemonic through its
/// `Display` impl. Trusted: the text is the phrase of these 32 bytes, and the
/// crate's parser reads the same 32 bytes back from it, as
/// `Mnemonic::to_entropy_array` documents. `from_entropy` accepts every
/// buffer of 32 bytes.
#[verifier::external_body]
fn phrase_from_entropy(entropy: &[u8; 32]) -> (text: String)
    ensures
        text@ == phrase_of(entropy@),
        parse_of(text@) is Ok,
        parse_of(text@).unwrap().1 == 32,
        parse_of(text@).unwrap().0.len() == 33,
        parse_of(text@).unwrap().0.subrange(0, 32) == entropy@,
{
    bip39::Mnemonic::from_entropy(entropy).unwrap().to_string()
}

/// Calls `bip39::Mnemonic::parse_in_normalized` with the English word list
/// and, on a phrase that it accepts, `Mnemonic::to_entropy_array`. Trusted:
/// the answer is a function of the text alone.
#[verifier::external_body]
fn parse_phrase(text: &str) -> (parsed: Result<([u8; 33], usize), ParseFailure>)
    ensures
        parse_view(parsed) == parse_of(text@),
{
    match bip39::Mnemonic::parse_in_normalized(bip39::Language::English, text) {
        Ok(m) => Ok(m.to_entropy_array()),
        Err(bip39::Error::BadWordCount(n)) => Err(ParseFailure::BadWordCount(n)),
        Err(bip39::Error::UnknownWord(i)) => Err(ParseFailure::UnknownWord(i)),
        Err(bip39::Error::BadEntropyBitCount(n)) => Err(ParseFailure::BadEntropyBitCount(n)),
        Err(bip39::Error::InvalidChecksum) => Err(ParseFailure::InvalidChecksum),
        Err(bip39::Error::AmbiguousLanguages(_)) => Err(ParseFailure::AmbiguousLanguages),
    }
}

/// Writes a secret as its phrase. Every secret has one, and the phrase
/// decodes to the secret.
pub fn encode(secret: &Secret) -> (text: String)
    ensures
        text@ == phrase_of(secret@),
        decode_spec(text@) == Ok::<Seq<u8>, DecodeError>(secret@),
        is_canonical(text@),
{
    let text = phrase_from_entropy(&secret.bytes);
    assert(Seq::new(32, |i: int| parse_of(text@).unwrap().0[i]) =~= secret@) by {
        let bytes = parse_of(text@).unwrap().0;
        assert forall|i: int| 0 <= i < 32 implies bytes[i] == secret@[i] by {
            assert(bytes.subrange(0, 32)[i] == bytes[i]);
        }
    }
    text
}

/// Turns the parser's answer into a secret: the first 32 bytes of a phrase
/// of 256 bits, `BadLength` for any other size, and the parser's refusal
/// under this library's names.
pub fn secret_from_parse(parsed: Result<([u8; 33], usize), ParseFailure>) -> (r: Result<
    Secret,
    DecodeError,
>)
    ensures
        secret_view(r) == decoded(parse_view(parsed)),
{
    match parsed {
        Ok((bytes, len)) => {
            if len != 32 {
                return Err(DecodeError::BadLength);
            }
            let mut out = [0u8; 32];
            let mut i: usize = 0;
            while i < 32
                invariant
                    i <= 32,
                    forall|k: int| 0 <= k < i ==> out@[k] == bytes@[k],
                decreases 32 - i,
            {
                out[i] = bytes[i];
                i += 1;
            }
            assert(out@ =~= Seq::new(32, |i: int| bytes@[i]));
            Ok(Secret { bytes: out })
        },
        Err(ParseFailure::BadWordCount(_)) => Err(DecodeError::BadLength),
        Err(ParseFailure::BadEntropyBitCount(_)) => Err(DecodeError::BadLength),
        Err(ParseFailure::UnknownWord(_)) => Err(DecodeError::UnknownWord),
        Err(ParseFailure::AmbiguousLanguages) => Err(DecodeError::UnknownWord),
        Err(ParseFailure::InvalidChecksum) => Err(DecodeError::ChecksumMismatch),
    }
}

/// Reads a line of text as a secret. Words are separated by any white
/// space, so a line may keep its terminator.
pub fn decode(text: &str) -> (r: Result<Secret, DecodeError>)
    ensures
        secret_view(r) == decode_spec(text@),
{
    secret_from_parse(parse_phrase(text))
}

} // verus!
