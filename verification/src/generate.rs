//! The generator: fresh random secrets, written as phrases.

use vstd::prelude::*;
use crate::codec::{decode_spec, encode, is_canonical, phrase_of, DecodeError};
use crate::pad::{draw_secret, RandomnessError};
use crate::secret::Secret;

verus! {

/// The line that a draw gives: the phrase of the secret that was drawn,
/// which decodes to that secret; and the failure where the draw failed.
pub fn line_from_draw(drawn: Result<Secret, RandomnessError>) -> (r: Result<
    String,
    RandomnessError,
>)
    ensures
        drawn matches Ok(secret) ==> r is Ok && r.unwrap()@ == phrase_of(secret@) && decode_spec(
            r.unwrap()@,
        ) == Ok::<Seq<u8>, DecodeError>(secret@),
        drawn is Err ==> r is Err,
{
    match drawn {
        Ok(secret) => Ok(encode(&secret)),
        Err(e) => Err(e),
    }
}

/// Draws one secret and writes it as its phrase. The line decodes, and to
/// the secret that it was written from.
pub fn generate_line() -> (r: Result<String, RandomnessError>)
    ensures
        r matches Ok(text) ==> is_canonical(text@),
{
    line_from_draw(draw_secret())
}

/// Draws `count` secrets, each on its own, and writes each as its phrase.
/// Where no line is asked for nothing is drawn, so nothing can fail.
pub fn generate_lines(count: usize) -> (r: Result<Vec<String>, RandomnessError>)
    ensures
        r matches Ok(lines) ==> lines.len() == count && forall|i: int|
            0 <= i < count ==> is_canonical(#[trigger] lines.deep_view()[i]),
        count == 0 ==> r is Ok,
{
    let mut lines: Vec<String> = Vec::new();
    let mut i: usize = 0;
    while i < count
        invariant
            i <= count,
            lines.len() == i,
            forall|j: int| 0 <= j < i ==> is_canonical((#[trigger] lines@[j])@),
        decreases count - i,
    {
        match generate_line() {
            Ok(text) => {
                lines.push(text);
            },
            Err(e) => {
                return Err(e);
            },
        }
        i += 1;
    }
    assert forall|j: int| 0 <= j < count implies is_canonical(#[trigger] lines.deep_view()[j]) by {
        assert(lines.deep_view()[j] == lines@[j]@);
    }
    Ok(lines)
}

} // verus!
