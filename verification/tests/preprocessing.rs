use lidar_point_cloud_classifier::preprocessing::validate_block_filename;

#[test]
fn test_validate_block_filename_rejects_parent_traversal() {
    assert!(validate_block_filename("../etc/passwd").is_err());
}

#[test]
fn test_validate_block_filename_rejects_forward_slash() {
    assert!(validate_block_filename("a/b.feat").is_err());
}

#[test]
fn test_validate_block_filename_rejects_backslash() {
    let name = "a".to_string() + "\\" + "b.feat";
    assert!(validate_block_filename(&name).is_err());
}

#[test]
fn test_validate_block_filename_accepts_bare_name() {
    assert!(validate_block_filename("block_00042.feat").is_ok());
}

