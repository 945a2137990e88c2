//! The combiner: XOR of mnemonic files, line by line.
//!
//! A round takes one read from every file, in the order of the files. The
//! first file sets the pace: while it yields lines, every other file must
//! yield one too, and when it ends, every other file must end in the same
//! round.

use vstd::prelude::*;
use crate::codec::{decode, decode_spec, encode, phrase_of, DecodeError};
use crate::secret::{xor_all, xor_bytes, zero_bytes, Secret};

verus! {

/// Why a round cannot be combined. `file` counts the files from zero.
#[derive(Clone, Copy, Debug, PartialEq, Eq)]
pub enum RoundError {
    /// The line of this file is no secret.
    Decode { file: usize, cause: DecodeError },
    /// This file ended in a round in which the files before it had a line.
    EndedEarly { file: usize },
    /// This file has a line in the round in which the first file ended.
    ContinuesLonger { file: usize },
}

/// A round's fault as contracts speak of it, with unbounded positions.
pub enum RoundFault {
    Decode { file: int, cause: DecodeError },
    EndedEarly { file: int },
    ContinuesLonger { file: int },
}

impl View for RoundError {
    type V = RoundFault;

    open spec fn view(&self) -> RoundFault {
        match *self {
            RoundError::Decode { file, cause } => RoundFault::Decode { file: file as int, cause },
            RoundError::EndedEarly { file } => RoundFault::EndedEarly { file: file as int },
            RoundError::ContinuesLonger { file } => RoundFault::ContinuesLonger {
                file: file as int,
            },
        }
    }
}

/// What a round comes to.
pub enum RoundStatus {
    /// Every file has ended.
    Finished,
    /// Every file gave a secret; this is their XOR.
    Line(Seq<u8>),
    /// The round cannot be combined.
    Fault(RoundFault),
}

/// What the reads are worth up to some file: the XOR so far, or the first
/// fault.
pub enum Scan {
    Acc(Seq<u8>),
    Stop(RoundFault),
}

/// One read: a line of text, or nothing where the file has ended.
pub type Read = Option<Seq<char>>;

/// The first of the first `k` reads that is a line, if any is.
pub open spec fn first_line(reads: Seq<Read>, k: int) -> Option<int>
    decreases k,
{
    if k <= 0 {
        None
    } else {
        match first_line(reads, k - 1) {
            Some(f) => Some(f),
            None => if reads[k - 1] is Some {
                Some(k - 1)
            } else {
                None
            },
        }
    }
}

/// Goes through the first `k` reads of a round in which the first file has
/// a line: each read must be a line that decodes, and the secrets are XORed
/// together. The first read that is not stops the scan.
pub open spec fn scan(reads: Seq<Read>, k: int) -> Scan
    decreases k,
{
    if k <= 0 {
        Scan::Acc(zero_bytes())
    } else {
        match scan(reads, k - 1) {
            Scan::Stop(fault) => Scan::Stop(fault),
            Scan::Acc(acc) => match reads[k - 1] {
                None => Scan::Stop(RoundFault::EndedEarly { file: k - 1 }),
                Some(text) => match decode_spec(text) {
                    Ok(secret) => Scan::Acc(xor_bytes(acc, secret)),
                    Err(cause) => Scan::Stop(RoundFault::Decode { file: k - 1, cause }),
                },
            },
        }
    }
}

/// What a round comes to, given the read of every file.
pub open spec fn round_status(reads: Seq<Read>) -> RoundStatus {
    if reads[0] is None {
        match first_line(reads, reads.len() as int) {
            Some(file) => RoundStatus::Fault(RoundFault::ContinuesLonger { file }),
            None => RoundStatus::Finished,
        }
    } else {
        match scan(reads, reads.len() as int) {
            Scan::Acc(acc) => RoundStatus::Line(acc),
            Scan::Stop(fault) => RoundStatus::Fault(fault),
        }
    }
}

/// The secrets of a round whose reads are all lines that decode.
pub open spec fn round_secrets(reads: Seq<Read>) -> Seq<Seq<u8>> {
    Seq::new(reads.len(), |f: int| decode_spec(reads[f].unwrap()).unwrap())
}

/// Every read is a line that decodes.
pub open spec fn all_decode(reads: Seq<Read>) -> bool {
    forall|f: int| 0 <= f < reads.len() ==> (#[trigger] reads[f]) is Some && decode_spec(
        reads[f].unwrap(),
    ) is Ok
}

/// The result of a round agrees with the round's status: nothing for a
/// finished round, the round's fault, or a line that is the phrase of the
/// round's XOR and decodes to it.
pub open spec fn round_result_matches(
    r: Result<Option<String>, RoundError>,
    status: RoundStatus,
) -> bool {
    match r {
        Ok(None) => status == RoundStatus::Finished,
        Ok(Some(text)) => status is Line && text@ == phrase_of(status->Line_0) && decode_spec(
            text@,
        ) == Ok::<Seq<u8>, DecodeError>(status->Line_0),
        Err(e) => status == RoundStatus::Fault(e@),
    }
}

/// A scan that reaches the end has met only lines that decode, and holds
/// the XOR of their secrets; one that stops has met a read that is not.
pub proof fn lemma_scan(reads: Seq<Read>, k: int)
    requires
        0 <= k <= reads.len(),
    ensures
        scan(reads, k) is Acc <==> all_decode(reads.take(k)),
        scan(reads, k) is Acc ==> scan(reads, k)->Acc_0 == xor_all(round_secrets(reads.take(k))),
        scan(reads, k) matches Scan::Stop(fault) ==> match fault {
            RoundFault::Decode { file, cause } => 0 <= file < k && all_decode(reads.take(file))
                && reads[file] is Some && decode_spec(reads[file].unwrap()) == Err::<
                Seq<u8>,
                DecodeError,
            >(cause),
            RoundFault::EndedEarly { file } => 0 <= file < k && all_decode(reads.take(file))
                && reads[file] is None,
            RoundFault::ContinuesLonger { .. } => false,
        },
    decreases k,
{
    if k > 0 {
        lemma_scan(reads, k - 1);
        let before = reads.take(k - 1);
        let upto = reads.take(k);
        assert(before =~= upto.take(k - 1));
        assert(upto[k - 1] == reads[k - 1]);
        match scan(reads, k - 1) {
            Scan::Stop(fault) => {
                assert(!all_decode(upto)) by {
                    if all_decode(upto) {
                        assert forall|f: int| 0 <= f < before.len() implies (#[trigger] before[f])
                            is Some && decode_spec(before[f].unwrap()) is Ok by {
                            assert(upto[f] == before[f]);
                        }
                    }
                }
            },
            Scan::Acc(acc) => {
                assert forall|f: int| 0 <= f < k - 1 implies (#[trigger] upto[f]) is Some
                    && decode_spec(upto[f].unwrap()) is Ok by {
                    assert(upto[f] == before[f]);
                }
                if reads[k - 1] is Some && decode_spec(reads[k - 1].unwrap()) is Ok {
                    assert(round_secrets(upto).drop_last() =~= round_secrets(before));
                }
            },
        }
    } else {
        assert(round_secrets(reads.take(0)) =~= Seq::<Seq<u8>>::empty());
    }
}

/// `first_line` finds the first line among the first `k` reads: before it
/// there are only ended files, and it finds none only where all have ended.
pub proof fn lemma_first_line(reads: Seq<Read>, k: int)
    requires
        0 <= k <= reads.len(),
    ensures
        first_line(reads, k) matches Some(f) ==> 0 <= f < k && reads[f] is Some && forall|g: int|
            0 <= g < f ==> (#[trigger] reads[g]) is None,
        first_line(reads, k) is None ==> forall|g: int| 0 <= g < k ==> (#[trigger] reads[g]) is None,
    decreases k,
{
    if k > 0 {
        lemma_first_line(reads, k - 1);
    }
}

/// Once a line is found, looking further finds the same one.
pub proof fn lemma_first_line_stays(reads: Seq<Read>, k: int, m: int)
    requires
        k <= m,
        first_line(reads, k) is Some,
    ensures
        first_line(reads, m) == first_line(reads, k),
    decreases m - k,
{
    if k < m {
        lemma_first_line_stays(reads, k, m - 1);
    }
}

/// Once a scan has stopped, scanning further changes nothing.
pub proof fn lemma_scan_stays(reads: Seq<Read>, k: int, m: int)
    requires
        k <= m,
        scan(reads, k) is Stop,
    ensures
        scan(reads, m) == scan(reads, k),
    decreases m - k,
{
    if k < m {
        lemma_scan_stays(reads, k, m - 1);
    }
}

/// A round gives a line exactly where every file gives a line that
/// decodes, and the line is the XOR of all of them; it is finished exactly
/// where every file has ended.
pub proof fn lemma_round_status(reads: Seq<Read>)
    requires
        reads.len() >= 1,
    ensures
        round_status(reads) is Line <==> all_decode(reads),
        round_status(reads) is Line ==> round_status(reads)->Line_0 == xor_all(round_secrets(reads)),
        round_status(reads) is Finished <==> forall|f: int|
            0 <= f < reads.len() ==> (#[trigger] reads[f]) is None,
{
    lemma_scan(reads, reads.len() as int);
    lemma_first_line(reads, reads.len() as int);
    assert(reads.take(reads.len() as int) =~= reads);
    if all_decode(reads) {
        assert(reads[0] is Some);
    }
}

/// Combines one round: the read of every file, in the order of the files.
/// Gives the combined line, or nothing where every file has ended.
pub fn combine_round(reads: &Vec<Option<String>>) -> (r: Result<Option<String>, RoundError>)
    requires
        reads.len() >= 1,
    ensures
        round_result_matches(r, round_status(reads.deep_view())),
{
    let ghost view = reads.deep_view();
    let n = reads.len();
    assert(view[0] == reads@[0].deep_view());
    if reads[0].is_none() {
        let mut f: usize = 1;
        assert(first_line(view, 1) is None) by {
            assert(first_line(view, 0) is None);
        }
        while f < n
            invariant
                1 <= f <= n,
                n == reads.len(),
                view == reads.deep_view(),
                view[0] is None,
                first_line(view, f as int) is None,
            decreases n - f,
        {
            assert(view[f as int] == reads@[f as int].deep_view());
            if reads[f].is_some() {
                proof {
                    lemma_first_line_stays(view, f + 1, n as int);
                }
                return Err(RoundError::ContinuesLonger { file: f });
            }
            f += 1;
        }
        Ok(None)
    } else {
        let mut acc = Secret::zero();
        let mut f: usize = 0;
        while f < n
            invariant
                f <= n,
                n == reads.len(),
                view == reads.deep_view(),
                view[0] is Some,
                scan(view, f as int) == Scan::Acc(acc@),
            decreases n - f,
        {
            assert(view[f as int] == reads@[f as int].deep_view());
            match &reads[f] {
                None => {
                    proof {
                        lemma_scan_stays(view, f + 1, n as int);
                    }
                    return Err(RoundError::EndedEarly { file: f });
                },
                Some(text) => match decode(text.as_str()) {
                    Ok(secret) => {
                        acc.xor_with(&secret);
                    },
                    Err(cause) => {
                        proof {
                            lemma_scan_stays(view, f + 1, n as int);
                        }
                        return Err(RoundError::Decode { file: f, cause });
                    },
                },
            }
            f += 1;
        }
        Ok(Some(encode(&acc)))
    }
}

/// Why a set of files cannot be combined: the round, counted from zero,
/// in which the fault is met, and the fault.
#[derive(Clone, Copy, Debug, PartialEq, Eq)]
pub struct CombineError {
    pub round: usize,
    pub cause: RoundError,
}

/// A combiner's fault as contracts speak of it, with unbounded positions.
pub struct CombineFault {
    pub round: int,
    pub cause: RoundFault,
}

impl View for CombineError {
    type V = CombineFault;

    open spec fn view(&self) -> CombineFault {
        CombineFault { round: self.round as int, cause: self.cause@ }
    }
}

/// A file: its lines, first to last.
pub type Lines = Seq<Seq<char>>;

/// The reads of round `i`: of every file its line `i`, or nothing where the
/// file has no such line.
pub open spec fn reads_at(files: Seq<Lines>, i: int) -> Seq<Read> {
    Seq::new(
        files.len(),
        |f: int|
            if 0 <= i < files[f].len() {
                Some(files[f][i])
            } else {
                None
            },
    )
}

/// The first of the rounds before `n` that has a fault, with its fault.
pub open spec fn first_fault(files: Seq<Lines>, n: int) -> Option<CombineFault>
    decreases n,
{
    if n <= 0 {
        None
    } else {
        match first_fault(files, n - 1) {
            Some(fault) => Some(fault),
            None => match round_status(reads_at(files, n - 1)) {
                RoundStatus::Fault(cause) => Some(CombineFault { round: n - 1, cause }),
                _ => None,
            },
        }
    }
}

/// The phrase of the XOR of all secrets in row `i`.
pub open spec fn combined_line(files: Seq<Lines>, i: int) -> Seq<char> {
    phrase_of(xor_all(round_secrets(reads_at(files, i))))
}

/// What combining a set of files gives: the fault of the first round that
/// has one, the round after the first file's last line included; and where
/// no round has one, as many lines as the first file has, each the phrase of
/// the XOR of its row.
pub open spec fn combine_spec(files: Seq<Lines>) -> Result<Lines, CombineFault> {
    match first_fault(files, files[0].len() as int + 1) {
        Some(fault) => Err(fault),
        None => Ok(Seq::new(files[0].len(), |i: int| combined_line(files, i))),
    }
}

/// Every file has as many lines as the first.
pub open spec fn same_line_counts(files: Seq<Lines>) -> bool {
    forall|f: int| 0 <= f < files.len() ==> (#[trigger] files[f]).len() == files[0].len()
}

/// Every line of every file decodes.
pub open spec fn all_lines_decode(files: Seq<Lines>) -> bool {
    forall|f: int, i: int|
        0 <= f < files.len() && 0 <= i < files[f].len() ==> decode_spec(#[trigger] files[f][i])
            is Ok
}

/// `first_fault` finds the first round with a fault: no round before it has
/// one, and it finds none only where no round has one.
pub proof fn lemma_first_fault(files: Seq<Lines>, n: int)
    requires
        0 <= n,
    ensures
        first_fault(files, n) matches Some(fault) ==> 0 <= fault.round < n && round_status(
            reads_at(files, fault.round),
        ) == RoundStatus::Fault(fault.cause) && forall|i: int|
            0 <= i < fault.round ==> !(round_status(#[trigger] reads_at(files, i)) is Fault),
        first_fault(files, n) is None ==> forall|i: int|
            0 <= i < n ==> !(round_status(#[trigger] reads_at(files, i)) is Fault),
    decreases n,
{
    if n > 0 {
        lemma_first_fault(files, n - 1);
    }
}

/// Once a fault is found, looking at more rounds finds the same one.
pub proof fn lemma_first_fault_stays(files: Seq<Lines>, n: int, m: int)
    requires
        n <= m,
        first_fault(files, n) is Some,
    ensures
        first_fault(files, m) == first_fault(files, n),
    decreases m - n,
{
    if n < m {
        lemma_first_fault_stays(files, n, m - 1);
    }
}

/// What a round of a set of files comes to. While the first file has a
/// line, the round gives a line or a fault, and a line exactly where every
/// file has a line that decodes. Past the first file's end, the round is
/// finished where every file has ended, and a fault otherwise.
pub proof fn lemma_round_of_files(files: Seq<Lines>, i: int)
    requires
        files.len() >= 1,
        0 <= i,
    ensures
        i < files[0].len() ==> !(round_status(reads_at(files, i)) is Finished),
        i < files[0].len() ==> (round_status(reads_at(files, i)) is Line <==> forall|f: int|
            0 <= f < files.len() ==> i < (#[trigger] files[f]).len() && decode_spec(files[f][i])
                is Ok),
        i >= files[0].len() ==> !(round_status(reads_at(files, i)) is Line),
        i >= files[0].len() ==> (round_status(reads_at(files, i)) is Finished <==> forall|f: int|
            0 <= f < files.len() ==> (#[trigger] files[f]).len() <= i),
{
    let reads = reads_at(files, i);
    lemma_round_status(reads);
    if i < files[0].len() {
        assert(reads[0] is Some);
        if all_decode(reads) {
            assert forall|f: int| 0 <= f < files.len() implies i < (#[trigger] files[f]).len()
                && decode_spec(files[f][i]) is Ok by {
                assert(reads[f] is Some);
            }
        }
        if forall|f: int|
            0 <= f < files.len() ==> i < (#[trigger] files[f]).len() && decode_spec(files[f][i])
                is Ok {
            assert forall|f: int| 0 <= f < reads.len() implies (#[trigger] reads[f]) is Some
                && decode_spec(reads[f].unwrap()) is Ok by {
                assert(i < files[f].len());
            }
        }
    } else {
        assert(reads[0] is None);
        if round_status(reads) is Finished {
            assert forall|f: int| 0 <= f < files.len() implies (#[trigger] files[f]).len()
                <= i by {
                assert(reads[f] is None);
            }
        }
        if forall|f: int| 0 <= f < files.len() ==> (#[trigger] files[f]).len() <= i {
            assert forall|f: int| 0 <= f < reads.len() implies (#[trigger] reads[f]) is None by {
                assert(files[f].len() <= i);
            }
        }
    }
}

/// Combining succeeds exactly on files of equal line counts whose lines
/// all decode.
pub proof fn lemma_combine_succeeds(files: Seq<Lines>)
    requires
        files.len() >= 1,
    ensures
        combine_spec(files) is Ok <==> same_line_counts(files) && all_lines_decode(files),
{
    let n = files[0].len() as int;
    lemma_first_fault(files, n + 1);
    if combine_spec(files) is Ok {
        assert forall|f: int| 0 <= f < files.len() implies (#[trigger] files[f]).len() == n by {
            lemma_round_of_files(files, n);
            assert(!(round_status(reads_at(files, n)) is Fault));
            if n > 0 {
                lemma_round_of_files(files, n - 1);
                assert(!(round_status(reads_at(files, n - 1)) is Fault));
            }
        }
        assert forall|f: int, i: int|
            0 <= f < files.len() && 0 <= i < files[f].len() implies decode_spec(
            #[trigger] files[f][i],
        ) is Ok by {
            lemma_round_of_files(files, i);
            assert(files[f].len() == n);
            assert(!(round_status(reads_at(files, i)) is Fault));
        }
    }
    if same_line_counts(files) && all_lines_decode(files) {
        assert forall|i: int| 0 <= i < n + 1 implies !(round_status(
            #[trigger] reads_at(files, i),
        ) is Fault) by {
            lemma_round_of_files(files, i);
            if i < n {
                assert forall|f: int| 0 <= f < files.len() implies i < (#[trigger] files[f]).len()
                    && decode_spec(files[f][i]) is Ok by {}
            }
        }
    }
}

/// Files of unequal line counts cannot be combined.
pub proof fn lemma_unequal_line_counts_fail(files: Seq<Lines>, f: int)
    requires
        files.len() >= 1,
        0 <= f < files.len(),
        files[f].len() != files[0].len(),
    ensures
        combine_spec(files) is Err,
{
    lemma_combine_succeeds(files);
}

/// Two files of which the second has more lines than the first cannot be
/// combined: the fault lies no later than the round in which the first
/// ends, and where all lines before that round decode, it is the second
/// file's line in that round.
pub proof fn lemma_second_file_longer(a: Lines, b: Lines)
    requires
        a.len() < b.len(),
    ensures
        combine_spec(seq![a, b]) is Err,
        combine_spec(seq![a, b])->Err_0.round <= a.len(),
        all_lines_decode(seq![a, b.take(a.len() as int)]) ==> combine_spec(seq![a, b]) == Err::<
            Lines,
            CombineFault,
        >(CombineFault { round: a.len() as int, cause: RoundFault::ContinuesLonger { file: 1 } }),
{
    let files = seq![a, b];
    let n = a.len() as int;
    let last = reads_at(files, n);
    assert(first_line(last, 2) == Some(1int)) by {
        assert(first_line(last, 0) is None);
        assert(first_line(last, 1) is None);
        assert(last[1] is Some);
    }
    lemma_first_fault(files, n + 1);
    if all_lines_decode(seq![a, b.take(n)]) {
        let cut = seq![a, b.take(n)];
        assert forall|i: int| 0 <= i < n implies !(round_status(#[trigger] reads_at(files, i))
            is Fault) by {
            lemma_round_of_files(files, i);
            assert forall|f: int| 0 <= f < files.len() implies i < (#[trigger] files[f]).len()
                && decode_spec(files[f][i]) is Ok by {
                assert(cut[f][i] == files[f][i]);
            }
        }
    }
}

/// Two files of which the first has more lines than the second cannot be
/// combined: the fault lies no later than the round in which the second
/// ends, and where all lines up to the first file's line in that round
/// decode, it is the second file's end.
pub proof fn lemma_first_file_longer(a: Lines, b: Lines)
    requires
        b.len() < a.len(),
    ensures
        combine_spec(seq![a, b]) is Err,
        combine_spec(seq![a, b])->Err_0.round <= b.len(),
        all_lines_decode(seq![a.take(b.len() as int + 1), b]) ==> combine_spec(seq![a, b]) == Err::<
            Lines,
            CombineFault,
        >(CombineFault { round: b.len() as int, cause: RoundFault::EndedEarly { file: 1 } }),
{
    let files = seq![a, b];
    let m = b.len() as int;
    let reads = reads_at(files, m);
    lemma_round_of_files(files, m);
    assert(files[1].len() == m);
    assert(round_status(reads) is Fault);
    lemma_first_fault(files, a.len() as int + 1);
    if all_lines_decode(seq![a.take(m + 1), b]) {
        let cut = seq![a.take(m + 1), b];
        assert forall|i: int| 0 <= i < m implies !(round_status(#[trigger] reads_at(files, i))
            is Fault) by {
            lemma_round_of_files(files, i);
            assert forall|f: int| 0 <= f < files.len() implies i < (#[trigger] files[f]).len()
                && decode_spec(files[f][i]) is Ok by {
                assert(cut[f][i] == files[f][i]);
            }
        }
        assert(scan(reads, 2) == Scan::Stop(RoundFault::EndedEarly { file: 1 })) by {
            assert(scan(reads, 0) is Acc);
            assert(cut[0][m] == a[m]);
            assert(decode_spec(reads[0].unwrap()) is Ok);
            assert(scan(reads, 1) is Acc);
            assert(reads[1] is None);
        }
    }
}

/// Two lists that hold the same items, each as often as the other, are
/// equally long, and what occurs in one occurs in the other.
proof fn lemma_same_items<A>(s1: Seq<A>, s2: Seq<A>)
    requires
        s1.to_multiset() == s2.to_multiset(),
    ensures
        s1.len() == s2.len(),
        forall|a: A| s1.contains(a) ==> #[trigger] s2.contains(a),
{
    vstd::seq_lib::to_multiset_len(s1);
    vstd::seq_lib::to_multiset_len(s2);
    assert forall|a: A| s1.contains(a) implies #[trigger] s2.contains(a) by {
        vstd::seq_lib::to_multiset_contains(s1, a);
        vstd::seq_lib::to_multiset_contains(s2, a);
    }
}

/// Mapping two lists that hold the same items, each as often as the other,
/// gives two lists that do so too.
proof fn lemma_map_multiset<A, B>(s1: Seq<A>, s2: Seq<A>, g: spec_fn(A) -> B)
    requires
        s1.to_multiset() == s2.to_multiset(),
    ensures
        s1.map_values(g).to_multiset() == s2.map_values(g).to_multiset(),
    decreases s1.len(),
{
    lemma_same_items(s1, s2);
    if s1.len() == 0 {
        assert(s1.map_values(g) =~= s2.map_values(g));
    } else {
        let a = s1.last();
        assert(s1.contains(a));
        assert(s2.contains(a));
        let i = s2.index_of(a);
        let r1 = s1.drop_last();
        let r2 = s2.remove(i);
        assert(r1 =~= s1.remove(s1.len() - 1));
        vstd::seq_lib::to_multiset_remove(s1, s1.len() - 1);
        vstd::seq_lib::to_multiset_remove(s2, i);
        assert(r1.to_multiset() == r2.to_multiset());
        lemma_map_multiset(r1, r2, g);
        let m1 = s1.map_values(g);
        let m2 = s2.map_values(g);
        assert(m1 =~= r1.map_values(g).push(g(a)));
        vstd::seq_lib::to_multiset_build(r1.map_values(g), g(a));
        assert(m2.remove(i) =~= r2.map_values(g));
        assert(m2[i] == g(a));
        vstd::seq_lib::to_multiset_remove(m2, i);
        vstd::seq_lib::to_multiset_contains(m2, g(a));
        assert(m2.contains(g(a)));
        assert(m2.to_multiset() =~= m2.remove(i).to_multiset().insert(g(a)));
    }
}

/// Combining does not care for the order of the files: where it succeeds
/// on a set of files, it succeeds on the same files in any other order, and
/// gives the same lines.
pub proof fn lemma_combine_order_independent(files: Seq<Lines>, other: Seq<Lines>)
    requires
        files.len() >= 1,
        files.to_multiset() == other.to_multiset(),
    ensures
        combine_spec(files) is Ok ==> combine_spec(other) == combine_spec(files),
        combine_spec(files) is Err ==> combine_spec(other) is Err,
{
    lemma_same_items(files, other);
    lemma_same_items(other, files);
    lemma_combine_succeeds(files);
    lemma_combine_succeeds(other);
    lemma_same_files_same_shape(files, other);
    lemma_same_files_same_shape(other, files);
    if combine_spec(files) is Ok {
        let n = files[0].len();
        assert(other[0].len() == n) by {
            assert(other.contains(other[0]));
            assert(files.contains(other[0]));
        }
        assert forall|i: int| 0 <= i < n implies combined_line(files, i) == combined_line(
            other,
            i,
        ) by {
            let g = |file: Lines| decode_spec(file[i]).unwrap();
            lemma_map_multiset(files, other, g);
            assert(round_secrets(reads_at(files, i)) =~= files.map_values(g));
            assert(round_secrets(reads_at(other, i)) =~= other.map_values(g));
            crate::secret::lemma_xor_all_permutation(files.map_values(g), other.map_values(g));
        }
        assert(combine_spec(other)->Ok_0 =~= combine_spec(files)->Ok_0);
    }
}

proof fn lemma_same_files_same_shape(files: Seq<Lines>, other: Seq<Lines>)
    requires
        files.len() >= 1,
        files.to_multiset() == other.to_multiset(),
    ensures
        same_line_counts(files) && all_lines_decode(files) ==> same_line_counts(other)
            && all_lines_decode(other),
{
    lemma_same_items(other, files);
    if same_line_counts(files) && all_lines_decode(files) {
        assert forall|g: int| 0 <= g < other.len() implies (#[trigger] other[g]).len()
            == files[0].len() && forall|i: int|
            0 <= i < other[g].len() ==> decode_spec(#[trigger] other[g][i]) is Ok by {
            assert(other.contains(other[g]));
            assert(files.contains(other[g]));
            let f = files.index_of(other[g]);
            assert(files[f] == other[g]);
            assert forall|i: int| 0 <= i < other[g].len() implies decode_spec(
                #[trigger] other[g][i],
            ) is Ok by {
                assert(decode_spec(files[f][i]) is Ok);
            }
        }
    }
}

/// Takes from every file its line `i`, or nothing where it has ended.
pub fn reads_of_round(files: &Vec<Vec<String>>, i: usize) -> (reads: Vec<Option<String>>)
    ensures
        reads.deep_view() == reads_at(files.deep_view(), i as int),
{
    let mut reads: Vec<Option<String>> = Vec::new();
    let mut f: usize = 0;
    while f < files.len()
        invariant
            f <= files.len(),
            reads.len() == f,
            forall|g: int|
                0 <= g < f ==> (#[trigger] reads@[g]).deep_view() == reads_at(
                    files.deep_view(),
                    i as int,
                )[g],
        decreases files.len() - f,
    {
        let file = &files[f];
        assert(files.deep_view()[f as int] == file.deep_view());
        if i < file.len() {
            assert(file.deep_view()[i as int] == file@[i as int]@);
            reads.push(Some(file[i].clone()));
        } else {
            reads.push(None);
        }
        f += 1;
    }
    assert(reads.deep_view() =~= reads_at(files.deep_view(), i as int));
    reads
}

/// Combines a set of files, each given as its lines: round after round
/// until the first file ends, which every other file must do in the same
/// round.
pub fn combine(files: &Vec<Vec<String>>) -> (r: Result<Vec<String>, CombineError>)
    requires
        files.len() >= 1,
    ensures
        match r {
            Ok(lines) => combine_spec(files.deep_view()) == Ok::<Lines, CombineFault>(
                lines.deep_view(),
            ) && lines.len() == files@[0].len() && forall|i: int|
                0 <= i < lines.len() ==> decode_spec(#[trigger] lines@[i]@) == Ok::<
                    Seq<u8>,
                    DecodeError,
                >(xor_all(round_secrets(reads_at(files.deep_view(), i)))),
            Err(e) => combine_spec(files.deep_view()) == Err::<Lines, CombineFault>(e@),
        },
{
    let ghost view = files.deep_view();
    let count = files[0].len();
    assert(view[0] == files@[0].deep_view());
    let mut out: Vec<String> = Vec::new();
    let mut i: usize = 0;
    loop
        invariant
            files.len() >= 1,
            view == files.deep_view(),
            count == view[0].len(),
            i <= count,
            out.len() == i,
            first_fault(view, i as int) is None,
            forall|j: int|
                0 <= j < i ==> (#[trigger] out@[j])@ == combined_line(view, j) && decode_spec(
                    out@[j]@,
                ) == Ok::<Seq<u8>, DecodeError>(xor_all(round_secrets(reads_at(view, j)))),
        decreases count - i,
    {
        let reads = reads_of_round(files, i);
        proof {
            lemma_round_of_files(view, i as int);
            lemma_round_status(reads_at(view, i as int));
        }
        match combine_round(&reads) {
            Ok(None) => {
                assert(out.deep_view() =~= Seq::new(
                    view[0].len(),
                    |j: int| combined_line(view, j),
                ));
                return Ok(out);
            },
            Ok(Some(line)) => {
                out.push(line);
                i += 1;
            },
            Err(cause) => {
                proof {
                    lemma_first_fault_stays(view, i + 1, count + 1);
                }
                return Err(CombineError { round: i, cause });
            },
        }
    }
}

} // verus!
