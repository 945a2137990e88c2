//! The splitter: one secret into shares that XOR back to it.
//!
//! The pads are random and the first share is what is left of the secret
//! once every pad is XORed into it. Any share alone is uniformly random;
//! all of them together give the secret.

use vstd::prelude::*;
use crate::codec::{decode, decode_spec, encode, is_canonical, phrase_of, DecodeError};
use crate::combine::{
    combine_spec, combined_line, lemma_combine_succeeds, lemma_round_status, reads_at,
    round_secrets, round_status, CombineFault, Lines, RoundStatus,
};
use crate::pad::{PadBuffers, MAX_PADS};
use crate::secret::{
    lemma_xor_fold_len, lemma_xor_fold_twice, lemma_xor_zero, xor_all, xor_bytes, xor_fold,
    zero_bytes, Secret,
};

verus! {

/// Why a line cannot be split.
#[derive(Clone, Copy, Debug, PartialEq, Eq)]
pub enum SplitError {
    /// The line is no secret.
    Decode(DecodeError),
    /// The operating system gave no random bytes for the pads.
    Randomness,
}

/// Why a file cannot be split: the line, counted from zero, and the cause.
#[derive(Clone, Copy, Debug, PartialEq, Eq)]
pub struct SplitFailure {
    pub line: usize,
    pub cause: SplitError,
}

/// The share that is left of a secret once every pad is XORed into it.
pub open spec fn residual(secret: Seq<u8>, pads: Seq<Seq<u8>>) -> Seq<u8> {
    xor_fold(secret, pads)
}

/// The shares of a secret under given pads: the residual, then the pads.
pub open spec fn shares(secret: Seq<u8>, pads: Seq<Seq<u8>>) -> Seq<Seq<u8>> {
    seq![residual(secret, pads)] + pads
}

/// The lines are the shares of the secret under the pads, each written as
/// its phrase, and each decodes to its share.
pub open spec fn is_share_row(lines: Lines, secret: Seq<u8>, pads: Seq<Seq<u8>>) -> bool {
    &&& lines.len() == pads.len() + 1
    &&& forall|k: int|
        0 <= k < lines.len() ==> #[trigger] lines[k] == phrase_of(shares(secret, pads)[k])
            && decode_spec(lines[k]) == Ok::<Seq<u8>, DecodeError>(shares(secret, pads)[k])
}

/// Folding from the left: the first item goes into the start.
proof fn lemma_xor_fold_first(start: Seq<u8>, first: Seq<u8>, rest: Seq<Seq<u8>>)
    ensures
        xor_fold(start, seq![first] + rest) == xor_fold(xor_bytes(start, first), rest),
    decreases rest.len(),
{
    let all = seq![first] + rest;
    if rest.len() == 0 {
        assert(all.drop_last() =~= Seq::<Seq<u8>>::empty());
        assert(xor_fold(start, all.drop_last()) == start);
    } else {
        assert(all.drop_last() =~= seq![first] + rest.drop_last());
        lemma_xor_fold_first(start, first, rest.drop_last());
    }
}

/// The XOR of all shares of a secret is the secret, whatever the pads.
pub proof fn lemma_shares_xor_to_secret(secret: Seq<u8>, pads: Seq<Seq<u8>>)
    requires
        secret.len() == 32,
    ensures
        xor_all(shares(secret, pads)) == secret,
{
    let r = residual(secret, pads);
    lemma_xor_fold_len(secret, pads);
    lemma_xor_fold_first(zero_bytes(), r, pads);
    lemma_xor_zero(r);
    lemma_xor_fold_twice(secret, pads);
}

/// A round over the shares of a secret gives the secret back.
pub proof fn lemma_share_row_combines(lines: Lines, secret: Seq<u8>, pads: Seq<Seq<u8>>)
    requires
        secret.len() == 32,
        is_share_row(lines, secret, pads),
    ensures
        round_status(lines.map_values(|l: Seq<char>| Some(l))) == RoundStatus::Line(secret),
{
    let reads = lines.map_values(|l: Seq<char>| Some(l));
    assert forall|f: int| 0 <= f < reads.len() implies (#[trigger] reads[f]) is Some
        && decode_spec(reads[f].unwrap()) is Ok by {
        assert(lines[f] == phrase_of(shares(secret, pads)[f]));
    }
    lemma_round_status(reads);
    assert(round_secrets(reads) =~= shares(secret, pads)) by {
        assert forall|f: int| 0 <= f < reads.len() implies round_secrets(reads)[f] == shares(
            secret,
            pads,
        )[f] by {
            assert(lines[f] == phrase_of(shares(secret, pads)[f]));
        }
    }
    lemma_shares_xor_to_secret(secret, pads);
}

/// Writes the shares of a secret under the given pads: first the residual,
/// then each pad, every one as its phrase.
pub fn share_secret(secret: &Secret, pads: &PadBuffers) -> (lines: Vec<String>)
    ensures
        is_share_row(lines.deep_view(), secret@, pads@),
{
    let n = pads.len();
    let mut acc = *secret;
    let mut k: usize = 0;
    while k < n
        invariant
            k <= n,
            n == pads@.len(),
            acc@ == xor_fold(secret@, pads@.take(k as int)),
        decreases n - k,
    {
        let pad = pads.get(k);
        acc.xor_with(&pad);
        proof {
            assert(pads@.take(k + 1).drop_last() =~= pads@.take(k as int));
        }
        k += 1;
    }
    assert(pads@.take(n as int) =~= pads@);
    let mut lines: Vec<String> = Vec::new();
    lines.push(encode(&acc));
    let mut k: usize = 0;
    while k < n
        invariant
            k <= n,
            n == pads@.len(),
            lines.len() == k + 1,
            forall|j: int|
                0 <= j < lines.len() ==> (#[trigger] lines@[j])@ == phrase_of(
                    shares(secret@, pads@)[j],
                ) && decode_spec(lines@[j]@) == Ok::<Seq<u8>, DecodeError>(
                    shares(secret@, pads@)[j],
                ),
        decreases n - k,
    {
        let pad = pads.get(k);
        lines.push(encode(&pad));
        k += 1;
    }
    assert forall|j: int| 0 <= j < lines.deep_view().len() implies #[trigger] lines.deep_view()[j]
        == phrase_of(shares(secret@, pads@)[j]) && decode_spec(lines.deep_view()[j]) == Ok::<
        Seq<u8>,
        DecodeError,
    >(shares(secret@, pads@)[j]) by {
        assert(lines.deep_view()[j] == lines@[j]@);
    }
    lines
}

/// Splits one line under the given pads. The line must decode; its shares
/// are then fixed by the pads.
pub fn split_line_with(line: &str, pads: &PadBuffers) -> (r: Result<Vec<String>, DecodeError>)
    ensures
        match r {
            Ok(lines) => decode_spec(line@) is Ok && is_share_row(
                lines.deep_view(),
                decode_spec(line@).unwrap(),
                pads@,
            ),
            Err(e) => decode_spec(line@) == Err::<Seq<u8>, DecodeError>(e),
        },
{
    match decode(line) {
        Ok(secret) => Ok(share_secret(&secret, pads)),
        Err(e) => Err(e),
    }
}

/// Splits one line into as many shares as there are pads, and one more.
/// The line is decoded first: a line that does not decode leaves the pads
/// as they are. Then every pad is drawn anew, and the shares are those of
/// the line's secret under the new pads.
pub fn split_line(line: &str, pads: &mut PadBuffers) -> (r: Result<Vec<String>, SplitError>)
    ensures
        final(pads)@.len() == old(pads)@.len(),
        match r {
            Ok(lines) => decode_spec(line@) is Ok && is_share_row(
                lines.deep_view(),
                decode_spec(line@).unwrap(),
                final(pads)@,
            ),
            Err(SplitError::Decode(e)) => decode_spec(line@) == Err::<Seq<u8>, DecodeError>(e)
                && final(pads)@ == old(pads)@,
            Err(SplitError::Randomness) => decode_spec(line@) is Ok,
        },
{
    match decode(line) {
        Ok(secret) => match pads.refill() {
            Ok(_) => Ok(share_secret(&secret, pads)),
            Err(_) => Err(SplitError::Randomness),
        },
        Err(e) => Err(SplitError::Decode(e)),
    }
}

/// The pads that a row of shares carries: what its lines after the first
/// decode to.
pub open spec fn pads_of_row(lines: Lines) -> Seq<Seq<u8>> {
    Seq::new((lines.len() - 1) as nat, |k: int| decode_spec(lines[k + 1]).unwrap())
}

/// Line `i` of every file, in the order of the files.
pub open spec fn column(files: Seq<Lines>, i: int) -> Lines {
    Seq::new(files.len(), |k: int| files[k][i])
}

/// The files are a split of the source: each has as many lines as the
/// source, every line of the source decodes, and line `i` of the files, taken
/// together, is the row of shares of the source's secret `i` under the pads
/// that the files after the first carry.
pub open spec fn is_split_of(files: Seq<Lines>, source: Lines) -> bool {
    &&& files.len() >= 1
    &&& forall|k: int| 0 <= k < files.len() ==> (#[trigger] files[k]).len() == source.len()
    &&& forall|i: int|
        0 <= i < source.len() ==> decode_spec(#[trigger] source[i]) is Ok && is_share_row(
            column(files, i),
            decode_spec(source[i]).unwrap(),
            pads_of_row(column(files, i)),
        )
}

/// The source as the combiner writes it: every line as the phrase of its
/// secret.
pub open spec fn canonical_lines(source: Lines) -> Lines {
    Seq::new(source.len(), |i: int| phrase_of(decode_spec(source[i]).unwrap()))
}

/// A row of shares carries the pads that it was made with.
pub proof fn lemma_pads_of_row(lines: Lines, secret: Seq<u8>, pads: Seq<Seq<u8>>)
    requires
        is_share_row(lines, secret, pads),
    ensures
        pads_of_row(lines) == pads,
{
    assert forall|k: int| 0 <= k < pads.len() implies pads_of_row(lines)[k] == pads[k] by {
        assert(lines[k + 1] == phrase_of(shares(secret, pads)[k + 1]));
    }
    assert(pads_of_row(lines) =~= pads);
}

/// Splitting and then combining gives the source back: in every row of a
/// split the secrets XOR to the source's secret, so the files combine to the
/// source's lines, each as the phrase of its secret, and to the source
/// itself where its lines are written that way.
pub proof fn lemma_split_then_combine(files: Seq<Lines>, source: Lines)
    requires
        is_split_of(files, source),
    ensures
        forall|i: int|
            0 <= i < source.len() ==> xor_all(round_secrets(#[trigger] reads_at(files, i)))
                == decode_spec(source[i]).unwrap(),
        combine_spec(files) == Ok::<Lines, CombineFault>(canonical_lines(source)),
        (forall|i: int| 0 <= i < source.len() ==> is_canonical(#[trigger] source[i]))
            ==> combine_spec(files) == Ok::<Lines, CombineFault>(source),
{
    assert forall|f: int, i: int| 0 <= f < files.len() && 0 <= i < files[f].len() implies decode_spec(
        #[trigger] files[f][i],
    ) is Ok by {
        assert(decode_spec(source[i]) is Ok);
        assert(column(files, i)[f] == files[f][i]);
    }
    lemma_combine_succeeds(files);
    let lines = combine_spec(files)->Ok_0;
    assert forall|i: int| 0 <= i < source.len() implies xor_all(
        round_secrets(#[trigger] reads_at(files, i)),
    ) == decode_spec(source[i]).unwrap() by {
        let secret = decode_spec(source[i]).unwrap();
        let row = column(files, i);
        let pads = pads_of_row(row);
        crate::codec::lemma_decoded_len(source[i]);
        assert(round_secrets(reads_at(files, i)) =~= shares(secret, pads)) by {
            assert forall|f: int| 0 <= f < files.len() implies round_secrets(reads_at(files, i))[f]
                == shares(secret, pads)[f] by {
                assert(row[f] == files[f][i]);
            }
        }
        lemma_shares_xor_to_secret(secret, pads);
    }
    assert forall|i: int| 0 <= i < source.len() implies combined_line(files, i)
        == canonical_lines(source)[i] by {
        assert(xor_all(round_secrets(reads_at(files, i))) == decode_spec(source[i]).unwrap());
    }
    assert(lines =~= canonical_lines(source));
    if forall|i: int| 0 <= i < source.len() ==> is_canonical(#[trigger] source[i]) {
        assert(canonical_lines(source) =~= source);
    }
}

/// Line `i` of every file of a table of lines.
spec fn table_row(files: Seq<Vec<String>>, i: int) -> Lines {
    Seq::new(files.len(), |k: int| files[k]@[i]@)
}

/// Splits a file, given as its lines, into `count` files of as many lines.
/// Line after line is decoded, its pads are drawn, and its shares go to the
/// files: the residual to the first, a pad to each of the others. The first
/// line that cannot be split ends the work.
pub fn split(source: &Vec<String>, count: usize) -> (r: Result<Vec<Vec<String>>, SplitFailure>)
    requires
        1 <= count <= MAX_PADS + 1,
    ensures
        match r {
            Ok(files) => files.len() == count && (forall|k: int|
                0 <= k < count ==> (#[trigger] files@[k]).len() == source.len()) && is_split_of(
                files.deep_view(),
                source.deep_view(),
            ) && combine_spec(files.deep_view()) == Ok::<Lines, CombineFault>(
                canonical_lines(source.deep_view()),
            ),
            Err(failure) => failure.line < source.len() && (forall|j: int|
                0 <= j < failure.line ==> decode_spec(#[trigger] source@[j]@) is Ok)
                && match failure.cause {
                SplitError::Decode(e) => decode_spec(source@[failure.line as int]@) == Err::<
                    Seq<u8>,
                    DecodeError,
                >(e),
                SplitError::Randomness => decode_spec(source@[failure.line as int]@) is Ok,
            },
        },
{
    let mut pads = PadBuffers::zeroed(count - 1);
    let mut files: Vec<Vec<String>> = Vec::new();
    let mut k: usize = 0;
    while k < count
        invariant
            k <= count,
            files.len() == k,
            forall|f: int| 0 <= f < k ==> (#[trigger] files@[f]).len() == 0,
        decreases count - k,
    {
        files.push(Vec::new());
        k += 1;
    }
    let mut i: usize = 0;
    while i < source.len()
        invariant
            i <= source.len(),
            count >= 1,
            files.len() == count,
            pads@.len() == count - 1,
            forall|f: int| 0 <= f < count ==> (#[trigger] files@[f]).len() == i,
            forall|j: int|
                0 <= j < i ==> decode_spec(#[trigger] source@[j]@) is Ok && is_share_row(
                    table_row(files@, j),
                    decode_spec(source@[j]@).unwrap(),
                    pads_of_row(table_row(files@, j)),
                ),
        decreases source.len() - i,
    {
        let lines = match split_line(source[i].as_str(), &mut pads) {
            Ok(lines) => lines,
            Err(cause) => {
                return Err(SplitFailure { line: i, cause });
            },
        };
        let ghost before = files@;
        let mut k: usize = 0;
        while k < count
            invariant
                k <= count,
                files.len() == count,
                before.len() == count,
                lines.len() == count,
                forall|f: int| 0 <= f < count ==> (#[trigger] before[f]).len() == i,
                forall|f: int| 0 <= f < k ==> (#[trigger] files@[f])@ == before[f]@.push(lines@[f]),
                forall|f: int| k <= f < count ==> (#[trigger] files@[f]) == before[f],
            decreases count - k,
        {
            let text = lines[k].clone();
            files[k].push(text);
            k += 1;
        }
        proof {
            let secret = decode_spec(source@[i as int]@).unwrap();
            let row = table_row(files@, i as int);
            assert(row =~= lines.deep_view());
            lemma_pads_of_row(row, secret, pads@);
            assert forall|j: int| 0 <= j < i implies #[trigger] table_row(files@, j) == table_row(
                before,
                j,
            ) by {
                assert(table_row(files@, j) =~= table_row(before, j));
            }
        }
        i += 1;
    }
    proof {
        let table = files.deep_view();
        let lines = source.deep_view();
        assert forall|j: int| 0 <= j < lines.len() implies decode_spec(#[trigger] lines[j]) is Ok
            && is_share_row(
            column(table, j),
            decode_spec(lines[j]).unwrap(),
            pads_of_row(column(table, j)),
        ) by {
            assert(lines[j] == source@[j]@);
            assert(column(table, j) =~= table_row(files@, j));
        }
        assert forall|f: int| 0 <= f < table.len() implies (#[trigger] table[f]).len()
            == lines.len() by {
            assert(files@[f].len() == i);
        }
        lemma_split_then_combine(table, lines);
    }
    Ok(files)
}

} // verus!
