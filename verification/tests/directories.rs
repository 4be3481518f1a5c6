use rattler::directories::{
    default_cache_dir, empty_channel, get_test_data_dir, join, NoCacheDirectory,
};

#[test]
fn test_data_lies_two_levels_above_the_manifest() {
    assert_eq!(get_test_data_dir("/src/crates/rattler"), "/src/crates/rattler/../../test-data");
    assert_eq!(get_test_data_dir("/src/crates/rattler/"), "/src/crates/rattler/../../test-data");
    assert_eq!(get_test_data_dir(""), "../../test-data");
}

#[test]
fn the_cache_directory_lies_below_the_platform_cache() {
    assert_eq!(default_cache_dir(Some("/home/user/.cache")), Ok("/home/user/.cache/rattler/cache".to_string()));
    assert_eq!(default_cache_dir(None), Err(NoCacheDirectory));
    assert_eq!(
        NoCacheDirectory.message(),
        "could not determine cache directory for current platform"
    );
}

#[test]
fn join_agrees_with_the_standard_library() {
    for base in ["", "/", "/a", "/a/", "a/b", "é"] {
        for rest in ["x", "../y", "rattler/cache"] {
            let expected = std::path::Path::new(base).join(rest);
            assert_eq!(join(base, rest), expected.to_str().unwrap());
        }
    }
}

#[test]
fn the_empty_channel_is_a_file_address() {
    assert_eq!(
        empty_channel("/src/crates/rattler"),
        "file:///src/crates/rattler/../../test-data/channels/empty[noarch]"
    );
}
