use mnemonic_shares::batch::CreationBatch;
use mnemonic_shares::codec::{decode, encode, DecodeError};
use mnemonic_shares::combine::combine;
use mnemonic_shares::generate::{generate_line, generate_lines, line_from_draw};
use mnemonic_shares::pad::{PadBuffers, RandomnessError};
use mnemonic_shares::secret::Secret;
use mnemonic_shares::split::{
    share_secret, split, split_line, split_line_with, SplitError, SplitFailure,
};

const ZERO_PHRASE: &str = "abandon abandon abandon abandon abandon abandon abandon abandon abandon abandon abandon abandon abandon abandon abandon abandon abandon abandon abandon abandon abandon abandon abandon art";
const SEVEN_F_PHRASE: &str = "legal winner thank year wave sausage worth useful legal winner thank year wave sausage worth useful legal winner thank year wave sausage worth title";
const EIGHTY_PHRASE: &str = "letter advice cage absurd amount doctor acoustic avoid letter advice cage absurd amount doctor acoustic avoid letter advice cage absurd amount doctor acoustic bless";
const FF_PHRASE: &str = "zoo zoo zoo zoo zoo zoo zoo zoo zoo zoo zoo zoo zoo zoo zoo zoo zoo zoo zoo zoo zoo zoo zoo vote";

fn line(byte: u8) -> String {
    encode(&Secret::from_bytes([byte; 32]))
}

fn pads_of(bytes: &[u8]) -> PadBuffers {
    let mut pads = PadBuffers::zeroed(bytes.len());
    for (i, b) in bytes.iter().enumerate() {
        pads.set(i, &Secret::from_bytes([*b; 32]));
    }
    pads
}

fn xor_of(lines: &[String]) -> Secret {
    let mut acc = Secret::zero();
    for l in lines {
        acc.xor_with(&decode(l).unwrap());
    }
    acc
}

#[test]
fn shares_are_the_residual_and_the_pads() {
    let lines = share_secret(&Secret::zero(), &pads_of(&[0x7f, 0x80]));
    assert_eq!(lines, vec![FF_PHRASE, SEVEN_F_PHRASE, EIGHTY_PHRASE]);
    let lines = share_secret(&Secret::from_bytes([0xff; 32]), &pads_of(&[0x7f]));
    assert_eq!(lines, vec![EIGHTY_PHRASE, SEVEN_F_PHRASE]);
}

#[test]
fn a_secret_without_pads_is_its_only_share() {
    let lines = share_secret(&Secret::from_bytes([0x80; 32]), &pads_of(&[]));
    assert_eq!(lines, vec![EIGHTY_PHRASE]);
}

#[test]
fn shares_under_many_pads_xor_to_the_secret() {
    let secret = Secret::from_bytes([0x3c; 32]);
    let lines = share_secret(&secret, &pads_of(&[1, 2, 4, 8, 16, 32, 64]));
    assert_eq!(lines.len(), 8);
    assert_eq!(lines[0], line(0x3c ^ 0x7f));
    assert_eq!(xor_of(&lines), secret);
}

#[test]
fn equal_pads_cancel() {
    let lines = share_secret(&Secret::from_bytes([0x11; 32]), &pads_of(&[0xab, 0xab]));
    assert_eq!(lines, vec![line(0x11), line(0xab), line(0xab)]);
}

#[test]
fn split_line_with_decodes_the_line_first() {
    let lines = split_line_with(&format!("{}\n", ZERO_PHRASE), &pads_of(&[0x7f, 0x80]));
    assert_eq!(
        lines,
        Ok(vec![FF_PHRASE.to_string(), SEVEN_F_PHRASE.to_string(), EIGHTY_PHRASE.to_string()])
    );
    assert_eq!(
        split_line_with("abandon", &pads_of(&[1])),
        Err(DecodeError::BadLength)
    );
    assert_eq!(
        split_line_with(&vec!["abandon"; 24].join(" "), &pads_of(&[1])),
        Err(DecodeError::ChecksumMismatch)
    );
    assert_eq!(
        split_line_with(&ZERO_PHRASE.replace("art", "arty"), &pads_of(&[1])),
        Err(DecodeError::UnknownWord)
    );
}

#[test]
fn split_line_draws_fresh_pads() {
    let mut pads = PadBuffers::zeroed(2);
    let lines = split_line(ZERO_PHRASE, &mut pads).unwrap();
    assert_eq!(lines.len(), 3);
    assert_eq!(pads.len(), 2);
    assert_eq!(decode(&lines[1]), Ok(pads.get(0)));
    assert_eq!(decode(&lines[2]), Ok(pads.get(1)));
    assert_ne!(pads.get(0), Secret::zero());
    assert_ne!(pads.get(1), Secret::zero());
    assert_ne!(pads.get(0), pads.get(1));
    let again = split_line(ZERO_PHRASE, &mut pads).unwrap();
    assert_ne!(again, lines);
}

#[test]
fn split_line_leaves_the_pads_of_a_bad_line() {
    let mut pads = pads_of(&[5, 6]);
    assert_eq!(
        split_line("no phrase at all", &mut pads),
        Err(SplitError::Decode(DecodeError::BadLength))
    );
    assert_eq!(pads.get(0), Secret::from_bytes([5; 32]));
    assert_eq!(pads.get(1), Secret::from_bytes([6; 32]));
}

#[test]
fn all_zero_secret_in_three_shares() {
    let files = split(&vec![ZERO_PHRASE.to_string()], 3).unwrap();
    assert_eq!(files.len(), 3);
    for f in &files {
        assert_eq!(f.len(), 1);
    }
    let second = decode(&files[1][0]).unwrap();
    let third = decode(&files[2][0]).unwrap();
    assert_ne!(second, Secret::zero());
    assert_ne!(third, Secret::zero());
    assert_ne!(second, third);
    let mut acc = decode(&files[0][0]).unwrap();
    acc.xor_with(&second);
    acc.xor_with(&third);
    assert_eq!(acc.bytes, [0u8; 32]);
}

#[test]
fn split_then_combine_gives_the_source_back() {
    let source: Vec<String> = (0u8..7).map(|b| line(b.wrapping_mul(37))).collect();
    for count in [1usize, 2, 3, 4, 5, 9] {
        let files = split(&source, count).unwrap();
        assert_eq!(files.len(), count);
        for f in &files {
            assert_eq!(f.len(), source.len());
        }
        assert_eq!(combine(&files), Ok(source.clone()));
    }
}

#[test]
fn split_then_combine_of_no_lines_gives_no_lines() {
    let files = split(&Vec::new(), 4).unwrap();
    assert_eq!(files, vec![Vec::<String>::new(); 4]);
    assert_eq!(combine(&files), Ok(Vec::new()));
}

#[test]
fn split_then_combine_tidies_untidy_lines() {
    let source = vec![format!("{}\n", FF_PHRASE), format!("\t{}  \n", SEVEN_F_PHRASE)];
    let files = split(&source, 2).unwrap();
    assert_eq!(
        combine(&files),
        Ok(vec![FF_PHRASE.to_string(), SEVEN_F_PHRASE.to_string()])
    );
}

#[test]
fn any_order_of_the_shares_combines_to_the_source() {
    let source = vec![line(0x42), line(0x99)];
    let files = split(&source, 3).unwrap();
    let turned = vec![files[2].clone(), files[0].clone(), files[1].clone()];
    assert_eq!(combine(&turned), Ok(source));
}

#[test]
fn shares_of_the_same_line_differ_from_split_to_split() {
    let source = vec![line(0x42)];
    let one = split(&source, 2).unwrap();
    let two = split(&source, 2).unwrap();
    assert_ne!(one, two);
}

#[test]
fn a_share_alone_is_not_the_source() {
    let source = vec![line(0x42)];
    let files = split(&source, 2).unwrap();
    assert_ne!(files[0], source);
    assert_ne!(files[1], source);
}

#[test]
fn split_names_the_first_bad_line() {
    let source = vec![line(1), line(2), "abandon ability".to_string(), "?".to_string()];
    assert_eq!(
        split(&source, 2),
        Err(SplitFailure { line: 2, cause: SplitError::Decode(DecodeError::BadLength) })
    );
    let source = vec![vec!["zoo"; 24].join(" ")];
    assert_eq!(
        split(&source, 3),
        Err(SplitFailure { line: 0, cause: SplitError::Decode(DecodeError::ChecksumMismatch) })
    );
    let source = vec![line(1), ZERO_PHRASE.replace("art", "artt")];
    assert_eq!(
        split(&source, 3),
        Err(SplitFailure { line: 1, cause: SplitError::Decode(DecodeError::UnknownWord) })
    );
}

#[test]
fn generated_lines_are_canonical_phrases() {
    let lines = generate_lines(20).unwrap();
    assert_eq!(lines.len(), 20);
    for l in &lines {
        assert_eq!(l.split(' ').count(), 24);
        assert_eq!(encode(&decode(l).unwrap()), *l);
    }
    for i in 0..lines.len() {
        for j in 0..i {
            assert_ne!(lines[i], lines[j]);
        }
    }
}

#[test]
fn generating_no_lines_gives_none() {
    assert_eq!(generate_lines(0), Ok(Vec::new()));
}

#[test]
fn a_generated_line_decodes() {
    let text = generate_line().unwrap();
    assert!(decode(&text).is_ok());
}

#[test]
fn a_batch_hands_out_destinations_in_order() {
    let mut batch = CreationBatch::new(3);
    assert_eq!(batch.pending(), Some(0));
    assert!(batch.record_created());
    assert_eq!(batch.pending(), Some(1));
    assert!(batch.record_created());
    assert_eq!(batch.pending(), Some(2));
    assert!(batch.record_created());
    assert_eq!(batch.pending(), None);
    assert!(!batch.record_created());
    assert_eq!(batch.pending(), None);
}

#[test]
fn a_batch_rolls_back_what_it_created() {
    let mut batch = CreationBatch::new(4);
    assert_eq!(batch.rollback(), Vec::<usize>::new());
    batch.record_created();
    assert_eq!(batch.rollback(), vec![0]);
    batch.record_created();
    assert_eq!(batch.rollback(), vec![0, 1]);
    assert_eq!(batch.pending(), Some(2));
    assert!(!batch.rollback().contains(&2));
}

#[test]
fn an_empty_batch_has_nothing_to_do() {
    let mut batch = CreationBatch::new(0);
    assert_eq!(batch.pending(), None);
    assert!(!batch.record_created());
    assert_eq!(batch.rollback(), Vec::<usize>::new());
}

#[test]
fn a_drawn_secret_becomes_its_phrase() {
    assert_eq!(line_from_draw(Ok(Secret::zero())), Ok(ZERO_PHRASE.to_string()));
    assert_eq!(line_from_draw(Ok(Secret::from_bytes([0xff; 32]))), Ok(FF_PHRASE.to_string()));
}

#[test]
fn a_failed_draw_becomes_no_line() {
    assert_eq!(line_from_draw(Err(RandomnessError)), Err(RandomnessError));
}
