use softrx::lsfr::LSFR;

#[test]
fn test_lsfr() {
    let mut lsfr = LSFR::new(0b10101001, 0xFF);
    let expected_stream = &[
        true, true, true, true, true, true, true, true, false, true, false, false, true, false,
        false, false, false, false, false, false, true, true, true, false, true, true, false,
        false, false, false, false, false, true, false, false, true, true, false, true, false,
    ];

    for i in expected_stream {
        assert_eq!(lsfr.next().unwrap(), *i);
    }
}

#[test]
fn lsfr_all_ones_seed_starts_with_eight_ones() {
    let mut lsfr = LSFR::new(0b10101001, 0xFF);
    for _ in 0..8 {
        assert_eq!(lsfr.next(), Some(true));
    }
}

#[test]
fn lsfr_identical_construction_gives_identical_streams() {
    let mut a = LSFR::new(0b11000111, 0x5A);
    let mut b = LSFR::new(0b11000111, 0x5A);
    for _ in 0..256 {
        assert_eq!(a.next(), b.next());
    }
}
