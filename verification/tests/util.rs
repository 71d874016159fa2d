use mastermind::util::{compose_be_u64, get_random_number_u8};

#[test]
fn random_number_generator_u8_with_valid_limits() {
    let raws: [u64; 5] = [0, 1, 7, 123456789, u64::MAX];
    for raw in raws.iter() {
        for upper_limit in 1..20 {
            let x = get_random_number_u8(*raw, upper_limit);
            assert!(x < upper_limit);
        }
    }
}

#[test]
fn random_number_generator_generates_complete_range() {
    for upper_limit in 1..20u8 {
        let mut generated = Vec::<bool>::with_capacity(upper_limit as usize);
        generated.resize(upper_limit as usize, false);
        for raw in 0..(3 * upper_limit as u64) {
            let x = get_random_number_u8(raw, upper_limit);
            assert!(x < upper_limit);
            generated[x as usize] = true;
        }
        assert!(generated.iter().all(|x| *x));
    }
}

#[test]
fn composes_big_endian_words() {
    assert_eq!(0, compose_be_u64(&[0; 8]));
    assert_eq!(5, compose_be_u64(&[0, 0, 0, 0, 0, 0, 0, 5]));
    assert_eq!(1 << 56, compose_be_u64(&[1, 0, 0, 0, 0, 0, 0, 0]));
    assert_eq!(u64::MAX, compose_be_u64(&[0xff; 8]));
    assert_eq!(0x0102030405060708, compose_be_u64(&[1, 2, 3, 4, 5, 6, 7, 8]));
}
