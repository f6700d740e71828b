use symphonia_codec_opus::range::icdf::{find_symbol, is_well_formed};

#[test]
fn well_formed_tables() {
    assert!(is_well_formed(&[256, 26, 256]));
    assert!(is_well_formed(&[256, 32, 64, 96, 128, 160, 192, 224, 256]));
    assert!(is_well_formed(&[1, 1]));
    assert!(is_well_formed(&[65536, 65536]));
    assert!(is_well_formed(&[65536, 0, 1, 65535, 65536]));
    // Symbols of no width are allowed.
    assert!(is_well_formed(&[256, 0, 0, 256, 256]));
    assert!(is_well_formed(&[256, 2, 3, 9, 254, 256, 256]));
}

#[test]
fn malformed_tables() {
    assert!(!is_well_formed(&[]));
    assert!(!is_well_formed(&[256]));
    // A total of zero, or above 2^16.
    assert!(!is_well_formed(&[0, 0]));
    assert!(!is_well_formed(&[65537, 65537]));
    // The last entry is not the total.
    assert!(!is_well_formed(&[256, 26, 255]));
    assert!(!is_well_formed(&[256, 26]));
    // An entry below the one before it.
    assert!(!is_well_formed(&[256, 64, 32, 256]));
    assert!(!is_well_formed(&[256, 10, 20, 19, 256]));
    // An entry above the total.
    assert!(!is_well_formed(&[256, 300, 256]));
}

#[test]
fn find_symbol_takes_the_first_bound_above_the_threshold() {
    let cdf = [256, 32, 64, 96, 128, 160, 192, 224, 256];
    assert_eq!(find_symbol(&cdf, 0), 0);
    assert_eq!(find_symbol(&cdf, 31), 0);
    assert_eq!(find_symbol(&cdf, 32), 1);
    assert_eq!(find_symbol(&cdf, 191), 5);
    assert_eq!(find_symbol(&cdf, 192), 6);
    assert_eq!(find_symbol(&cdf, 223), 6);
    assert_eq!(find_symbol(&cdf, 224), 7);
    assert_eq!(find_symbol(&cdf, 255), 7);
}

#[test]
fn find_symbol_passes_over_symbols_of_no_width() {
    let cdf = [256, 0, 0, 100, 100, 256];
    assert_eq!(find_symbol(&cdf, 0), 2);
    assert_eq!(find_symbol(&cdf, 99), 2);
    assert_eq!(find_symbol(&cdf, 100), 4);
}

#[test]
fn find_symbol_falls_back_on_the_last_symbol() {
    let cdf = [256, 26, 256];
    assert_eq!(find_symbol(&cdf, 256), 1);
    assert_eq!(find_symbol(&cdf, u32::MAX), 1);
    assert_eq!(find_symbol(&[256, 256], 7), 0);
    assert_eq!(find_symbol(&[256, 10, 20, 30], 1000), 2);
}
