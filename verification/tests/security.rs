use spt::security::{
    aligned_words, check_ace_sid, check_acl_sizes, mask_lets_change, output_lock_shard,
    parse_allow_ace, private_acl_bytes, validate_directory_allow_aces, validate_private_directory,
    AllowAce, DirectoryFacts, Grant, ACCESS_SYSTEM_SECURITY, ACE_HEADER_BYTES, ACE_PREFIX_BYTES,
    ACL_HEADER_BYTES, CONTAINER_INHERIT_ACE, DELETE_ACCESS, FILE_ALL_ACCESS, FILE_APPEND_DATA,
    FILE_DELETE_CHILD, FILE_WRITE_ATTRIBUTES, FILE_WRITE_DATA, FILE_WRITE_EA, GENERIC_ALL,
    GENERIC_WRITE, MAXIMUM_ALLOWED, NON_PRIVATE_DIRECTORY_ACCESS, OBJECT_INHERIT_ACE,
    WRITE_DAC_ACCESS, WRITE_OWNER_ACCESS,
};

#[test]
fn windows_acl_layout_matches_documented_headers() {
    assert_eq!(ACL_HEADER_BYTES, 8);
    assert_eq!(ACE_HEADER_BYTES, 4);
    assert_eq!(ACE_PREFIX_BYTES + size_of::<u32>(), 12);
    assert_eq!(OBJECT_INHERIT_ACE | CONTAINER_INHERIT_ACE, 3);
    assert_eq!(FILE_ALL_ACCESS, 0x001f_01ff);
}

#[test]
fn private_directory_mask_rejects_every_write_class() {
    let dangerous = [
        FILE_WRITE_DATA,
        FILE_APPEND_DATA,
        FILE_WRITE_EA,
        FILE_DELETE_CHILD,
        FILE_WRITE_ATTRIBUTES,
        DELETE_ACCESS,
        WRITE_DAC_ACCESS,
        WRITE_OWNER_ACCESS,
        ACCESS_SYSTEM_SECURITY,
        MAXIMUM_ALLOWED,
        GENERIC_ALL,
        GENERIC_WRITE,
    ];
    for access in dangerous {
        assert_ne!(access & NON_PRIVATE_DIRECTORY_ACCESS, 0);
        assert!(mask_lets_change(access));
    }
    assert_eq!(0x0000_0001 & NON_PRIVATE_DIRECTORY_ACCESS, 0);
    assert_eq!(0x8000_0000 & NON_PRIVATE_DIRECTORY_ACCESS, 0);
    assert!(!mask_lets_change(0x8000_0001));
}

#[test]
fn private_directory_validation_uses_handle_owner_and_mode() {
    let facts = DirectoryFacts { is_directory: true, owner: 7, user: 7, mode: 0o700 };
    validate_private_directory("d", facts).expect("private directory should pass");
    assert!(validate_private_directory("d", DirectoryFacts { mode: 0o720, ..facts }).is_err());
    assert!(validate_private_directory("d", DirectoryFacts { mode: 0o702, ..facts }).is_err());
    assert!(validate_private_directory("d", DirectoryFacts { mode: 0o755, ..facts }).is_ok());
    assert!(validate_private_directory("d", DirectoryFacts { owner: 8, ..facts }).is_err());
    assert!(validate_private_directory("d", DirectoryFacts { is_directory: false, ..facts }).is_err());
}

fn entry(tag: u8, size: u16, mask: u32, rest: usize) -> Vec<u8> {
    let mut bytes = vec![tag, 0];
    bytes.extend_from_slice(&size.to_le_bytes());
    bytes.extend_from_slice(&mask.to_le_bytes());
    bytes.extend((0..rest).map(|at| u8::from(at == 1)));
    bytes
}

#[test]
fn an_entry_that_gives_rights_is_read() {
    assert_eq!(
        parse_allow_ace(&entry(0x00, 20, 0x0100_0002, 12), Some(0)),
        Ok(Some(AllowAce { mask: 0x0100_0002, sid_start: 8, sid_size: 12 }))
    );
    assert_eq!(parse_allow_ace(&entry(0x01, 20, 2, 12), Some(0)), Ok(None));
    assert_eq!(parse_allow_ace(&entry(0x00, 20, 2, 12), None), Err("DACL 包含空 ACE".to_owned()));
    assert_eq!(
        parse_allow_ace(&entry(0x00, 20, 2, 12), Some(18)),
        Err("ACE 头超出 DACL 边界".to_owned())
    );
    assert_eq!(
        parse_allow_ace(&entry(0x00, 21, 2, 12), Some(0)),
        Err("ACE 长度超出 DACL 边界".to_owned())
    );
    assert!(parse_allow_ace(&entry(0x04, 20, 2, 12), Some(0)).is_err());
    assert!(parse_allow_ace(&entry(0x00, 8, 2, 12), Some(0)).is_err());
}

#[test]
fn a_list_of_rights_is_checked() {
    assert!(check_ace_sid(true, 12, 12).is_ok());
    assert_eq!(check_ace_sid(false, 12, 12), Err("SID 格式无效".to_owned()));
    assert_eq!(check_ace_sid(true, 12, 16), Err("allow ACE SID 长度不一致".to_owned()));
    assert!(check_acl_sizes(64, 2, 48, 16).is_ok());
    assert_eq!(check_acl_sizes(7, 0, 7, 0), Err("DACL 长度不足".to_owned()));
    assert_eq!(check_acl_sizes(64, 8_193, 48, 16), Err("DACL ACE 数量超过安全上限".to_owned()));
    assert_eq!(check_acl_sizes(64, 2, 48, 17), Err("DACL 大小信息不一致".to_owned()));
    let writer = Grant { mask: FILE_WRITE_DATA, permitted: true };
    assert!(validate_directory_allow_aces(&vec![writer]).is_ok());
    assert!(validate_directory_allow_aces(&vec![writer, Grant { permitted: false, ..writer }]).is_err());
    assert_eq!(private_acl_bytes(&vec![12, 16]), Ok(8 + 8 + 12 + 8 + 16));
    assert!(private_acl_bytes(&vec![]).is_err());
    assert!(private_acl_bytes(&vec![u32::MAX]).is_err());
    assert_eq!(aligned_words(9), Ok(2));
    assert!(aligned_words(0).is_err());
}

#[test]
fn locks_are_shared_by_a_known_sum() {
    assert_eq!(output_lock_shard(b""), 0xcbf2_9ce4_8422_2325 % 4_096);
    assert_eq!(output_lock_shard(b"a"), 0xaf63_dc4c_8601_ec8c % 4_096);
}
