use installer::guid::PartitionGUID;
use installer::plan;
use installer::InstallerError;

#[test]
fn test_guid_hyphened() {
    let res = PartitionGUID::parse_guid_mixed_endian("C12A7328-F81F-11D2-BA4B-00A0C93EC93B");
    match res {
        Ok(guid) => {
            assert_eq!(
                guid.bytes,
                [
                    0x28, 0x73, 0x2A, 0xC1, 0x1F, 0xF8, 0xD2, 0x11, 0xBA, 0x4B, 0x00, 0xA0, 0xC9,
                    0x3E, 0xC9, 0x3B
                ]
            );
        }
        Err(_) => panic!("valid GUID text was rejected"),
    }
}

#[test]
fn test_guid_lowercase_matches_constant() {
    let parsed = PartitionGUID::parse_guid_mixed_endian("5dfbf5f4-2848-4bac-aa5e-0d9a20b745a6")
        .expect("valid GUID text");
    assert_eq!(parsed.bytes, plan::usr_x86_64_guid_bytes());
}

#[test]
fn test_guid_constants_match_their_text_forms() {
    let efi = PartitionGUID::parse_guid_mixed_endian("C12A7328-F81F-11D2-BA4B-00A0C93EC93B")
        .expect("valid GUID text");
    assert_eq!(efi.bytes, plan::efi_system_guid_bytes());
    let config = PartitionGUID::parse_guid_mixed_endian("13307e62-cd9c-4920-8f9b-91b45828b798")
        .expect("valid GUID text");
    assert_eq!(config.bytes, plan::config_guid_bytes());
    let p3 = PartitionGUID::parse_guid_mixed_endian("5f24425a-2dfa-11e8-a270-7b663faccc2c")
        .expect("valid GUID text");
    assert_eq!(p3.bytes, plan::p3_guid_bytes());
}

#[test]
fn test_guid_non_hex_character_fails() {
    let res = PartitionGUID::parse_guid_mixed_endian("G12A7328-F81F-11D2-BA4B-00A0C93EC93B");
    assert!(matches!(res, Err(InstallerError::Parse(_))));
}

#[test]
fn test_guid_wrong_length_fails() {
    let res = PartitionGUID::parse_guid_mixed_endian("C12A7328-F81F");
    assert!(matches!(res, Err(InstallerError::Parse(_))));
    let res = PartitionGUID::parse_guid_mixed_endian("C12A7328-F81F-11D2-BA4B-00A0C93EC93B00");
    assert!(matches!(res, Err(InstallerError::Parse(_))));
}

#[test]
fn test_guid_hyphens_anywhere() {
    let plain = PartitionGUID::parse_guid_mixed_endian("C12A7328F81F11D2BA4B00A0C93EC93B")
        .expect("valid GUID text");
    let dashed = PartitionGUID::parse_guid_mixed_endian("C12A-7328F81F11D2BA4B00A0C93EC93B-")
        .expect("valid GUID text");
    assert_eq!(plain.bytes, dashed.bytes);
}
