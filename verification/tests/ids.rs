//! The random link identifier: exact formatting and the canonical dashed
//! shape of freshly drawn identifiers.

use finview::plaid::{gen_random_id, hex_id, AuthParams};

#[test]
fn hex_id_formats_sixteen_bytes_in_canonical_groups() {
    let bytes = vec![
        0x12, 0x34, 0x56, 0x78, 0x9a, 0xbc, 0xde, 0xf0, 0x01, 0x23, 0x45, 0x67, 0x89, 0xab, 0xcd,
        0xef,
    ];
    assert_eq!(hex_id(&bytes), "12345678-9abc-def0-0123-456789abcdef");
}

#[test]
fn hex_id_pads_low_bytes_with_leading_zeros() {
    let bytes = vec![0u8; 16];
    assert_eq!(hex_id(&bytes), "00000000-0000-0000-0000-000000000000");
    let bytes = vec![
        0x00, 0x01, 0x02, 0x03, 0x04, 0x05, 0x06, 0x07, 0x08, 0x09, 0x0a, 0x0b, 0x0c, 0x0d, 0x0e,
        0x0f,
    ];
    assert_eq!(hex_id(&bytes), "00010203-0405-0607-0809-0a0b0c0d0e0f");
}

#[test]
fn random_ids_have_the_canonical_dashed_shape() {
    for _ in 0..8 {
        let id = gen_random_id();
        assert_eq!(id.len(), 36);
        for (i, c) in id.chars().enumerate() {
            if i == 8 || i == 13 || i == 18 || i == 23 {
                assert_eq!(c, '-', "dash expected at position {} of {}", i, id);
            } else {
                assert!(c.is_ascii_hexdigit() && !c.is_ascii_uppercase(), "bad digit in {}", id);
            }
        }
    }
}

#[test]
fn fresh_auth_params_hold_only_the_credentials() {
    let a = AuthParams::new("client-id".to_string(), "SECRET-REDACTED".to_string());
    assert_eq!(a.client_id, Some("client-id".to_string()));
    assert_eq!(a.secret, Some("SECRET-REDACTED".to_string()));
    assert_eq!(a.access_token, None);
    assert_eq!(a.item_id, None);
}
