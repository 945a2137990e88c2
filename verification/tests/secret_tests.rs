use mnemonic_shares::pad::{draw_secret, secret_from_fill, PadBuffers, RandomnessError};
use mnemonic_shares::secret::{Secret, SECRET_LEN};

fn ramp(start: u8, step: u8) -> Secret {
    let mut bytes = [0u8; 32];
    for (i, b) in bytes.iter_mut().enumerate() {
        *b = start.wrapping_add(step.wrapping_mul(i as u8));
    }
    Secret::from_bytes(bytes)
}

#[test]
fn a_secret_has_thirty_two_bytes() {
    assert_eq!(SECRET_LEN, 32);
    assert_eq!(Secret::zero().bytes.len(), 32);
    assert_eq!(Secret::zero().bytes, [0u8; 32]);
}

#[test]
fn from_bytes_keeps_the_bytes() {
    let mut bytes = [0u8; 32];
    bytes[0] = 1;
    bytes[31] = 0xfe;
    assert_eq!(Secret::from_bytes(bytes).bytes, bytes);
}

#[test]
fn xor_with_is_bytewise() {
    let mut a = Secret::from_bytes([0b1100_1010; 32]);
    let b = Secret::from_bytes([0b1010_0110; 32]);
    a.xor_with(&b);
    assert_eq!(a.bytes, [0b0110_1100; 32]);

    let mut c = ramp(0, 1);
    c.xor_with(&ramp(255, 255));
    let mut expected = [0u8; 32];
    for (i, e) in expected.iter_mut().enumerate() {
        *e = (i as u8) ^ 255u8.wrapping_add(255u8.wrapping_mul(i as u8));
    }
    assert_eq!(c.bytes, expected);
}

#[test]
fn xor_with_zero_changes_nothing() {
    let mut a = ramp(3, 5);
    a.xor_with(&Secret::zero());
    assert_eq!(a, ramp(3, 5));
    let mut z = Secret::zero();
    z.xor_with(&ramp(3, 5));
    assert_eq!(z, ramp(3, 5));
}

#[test]
fn xor_with_itself_is_zero() {
    let mut a = ramp(9, 11);
    a.xor_with(&ramp(9, 11));
    assert_eq!(a, Secret::zero());
}

#[test]
fn xor_twice_gives_the_start_back() {
    let mut a = ramp(1, 2);
    let pad = ramp(77, 13);
    a.xor_with(&pad);
    assert_ne!(a, ramp(1, 2));
    a.xor_with(&pad);
    assert_eq!(a, ramp(1, 2));
}

#[test]
fn xor_does_not_care_for_order_or_grouping() {
    let (a, b, c) = (ramp(1, 3), ramp(200, 7), ramp(31, 251));
    let mut ab = a;
    ab.xor_with(&b);
    let mut ba = b;
    ba.xor_with(&a);
    assert_eq!(ab, ba);

    let mut left = ab;
    left.xor_with(&c);
    let mut bc = b;
    bc.xor_with(&c);
    let mut right = a;
    right.xor_with(&bc);
    assert_eq!(left, right);
}

#[test]
fn zeroed_pads_are_zero() {
    for n in [0usize, 1, 3, 4, 10] {
        let pads = PadBuffers::zeroed(n);
        assert_eq!(pads.len(), n);
        for i in 0..n {
            assert_eq!(pads.get(i), Secret::zero());
        }
    }
}

#[test]
fn set_replaces_one_pad_only() {
    for n in [2usize, 3, 5] {
        let mut pads = PadBuffers::zeroed(n);
        pads.set(1, &ramp(4, 4));
        assert_eq!(pads.len(), n);
        assert_eq!(pads.get(1), ramp(4, 4));
        assert_eq!(pads.get(0), Secret::zero());
        for i in 2..n {
            assert_eq!(pads.get(i), Secret::zero());
        }
        pads.set(0, &ramp(8, 1));
        assert_eq!(pads.get(0), ramp(8, 1));
        assert_eq!(pads.get(1), ramp(4, 4));
    }
}

#[test]
fn refill_keeps_the_number_of_pads() {
    let mut pads = PadBuffers::zeroed(5);
    assert_eq!(pads.refill(), Ok(()));
    assert_eq!(pads.len(), 5);
    let fresh: Vec<Secret> = (0..5).map(|i| pads.get(i)).collect();
    assert!(fresh.iter().all(|p| *p != Secret::zero()));
    for i in 0..5 {
        for j in 0..i {
            assert_ne!(fresh[i], fresh[j]);
        }
    }
}

#[test]
fn refill_of_no_pads_succeeds() {
    let mut pads = PadBuffers::zeroed(0);
    assert_eq!(pads.refill(), Ok(()));
    assert_eq!(pads.len(), 0);
}

#[test]
fn drawn_secrets_differ() {
    let a = draw_secret().unwrap();
    let b = draw_secret().unwrap();
    assert_ne!(a, b);
    assert_ne!(a, Secret::zero());
}

#[test]
fn a_filled_buffer_is_a_secret() {
    let mut bytes = [0u8; 32];
    bytes[7] = 9;
    assert_eq!(secret_from_fill(Ok(()), bytes), Ok(Secret::from_bytes(bytes)));
    assert_eq!(secret_from_fill(Ok(()), [0u8; 32]), Ok(Secret::zero()));
}

#[test]
fn a_failed_fill_is_no_secret() {
    let code = std::num::NonZeroU32::new(rand::Error::CUSTOM_START).unwrap();
    assert_eq!(secret_from_fill(Err(rand::Error::from(code)), [3u8; 32]), Err(RandomnessError));
}
