use hexlogogen::utils::{
    default_color_palette, parse_seed, seed_from_bytes, uuid_to_seed, SeedError,
};

#[test]
fn test_uuid_to_seed() {
    // Test a valid UUID
    let uuid = "f47ac10b-58cc-4372-a567-0e02b2c3d479";
    let seed = uuid_to_seed(uuid).unwrap();

    // The seed should be deterministic
    let seed2 = uuid_to_seed(uuid).unwrap();
    assert_eq!(seed, seed2);

    // Different UUIDs should produce different seeds
    let uuid2 = "123e4567-e89b-12d3-a456-426614174000";
    let seed3 = uuid_to_seed(uuid2).unwrap();
    assert_ne!(seed, seed3);
}

#[test]
fn test_invalid_uuid() {
    // Test an invalid UUID
    let result = uuid_to_seed("not-a-uuid");
    assert!(result.is_err());
}

#[test]
fn test_default_color_palette() {
    let palette = default_color_palette();

    // Should have colors
    assert!(!palette.is_empty());

    // First color should start with #
    assert!(palette[0].starts_with('#'));
}

#[test]
fn uuid_seed_is_the_first_eight_bytes() {
    let seed = uuid_to_seed("f47ac10b-58cc-4372-a567-0e02b2c3d479").unwrap();
    assert_eq!(seed, 0xf47a_c10b_58cc_4372);
    let simple = uuid_to_seed("f47ac10b58cc4372a5670e02b2c3d479").unwrap();
    assert_eq!(simple, 0xf47a_c10b_58cc_4372);
}

#[test]
fn uuid_error_is_invalid_uuid() {
    assert_eq!(uuid_to_seed(""), Err(SeedError::InvalidUuid));
    assert_eq!(uuid_to_seed("f47ac10b-58cc-4372-a567"), Err(SeedError::InvalidUuid));
}

#[test]
fn seed_from_bytes_reads_big_endian() {
    let mut bytes = [0u8; 16];
    bytes[7] = 1;
    assert_eq!(seed_from_bytes(&bytes), 1);
    bytes[0] = 0xff;
    assert_eq!(seed_from_bytes(&bytes), 0xff00_0000_0000_0001);
    bytes[8] = 0x55;
    assert_eq!(seed_from_bytes(&bytes), 0xff00_0000_0000_0001);
}

#[test]
fn default_palette_is_the_documented_list() {
    assert_eq!(
        default_color_palette(),
        vec!["#4285F4", "#EA4335", "#FBBC05", "#34A853", "#9C27B0", "#00BCD4", "#FF9800", "#607D8B"]
    );
}

#[test]
fn seeds_in_text_form() {
    assert_eq!(parse_seed("12345"), Some(12345));
    assert_eq!(parse_seed("0"), Some(0));
    assert_eq!(parse_seed("007"), Some(7));
    assert_eq!(parse_seed("+7"), Some(7));
    assert_eq!(parse_seed("18446744073709551615"), Some(u64::MAX));
    assert_eq!(parse_seed("18446744073709551616"), None);
    assert_eq!(parse_seed("99999999999999999999999"), None);
    assert_eq!(parse_seed(""), None);
    assert_eq!(parse_seed("+"), None);
    assert_eq!(parse_seed("-1"), None);
    assert_eq!(parse_seed("++1"), None);
    assert_eq!(parse_seed("12a"), None);
    assert_eq!(parse_seed(" 12"), None);
    assert_eq!(parse_seed("1.5"), None);
    assert_eq!(parse_seed("١٢"), None);
    for text in ["", "+", "12", "+12", "x", "18446744073709551615", "18446744073709551616"] {
        assert_eq!(parse_seed(text), text.parse::<u64>().ok());
    }
}
