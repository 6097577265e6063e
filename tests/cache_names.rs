use cache_recovery::cache_dir::{
    extract_client_name, extract_profile_label, is_profile_dir_name, resolve_cache_dir, summarize_cache_dir,
    AppState, CacheDirLayout,
};
use cache_recovery::names::{blockfile_hex, is_cache_file, is_simple_cache_sparse, is_simple_cache_stream2, parse_cache_hex};

#[test]
fn blockfile_names() {
    assert!(is_cache_file("f_00630b"));
    assert!(is_cache_file("f_abcdef"));
    assert!(!is_cache_file("F_00630b"));
    assert!(!is_cache_file("f_00630B"));
    assert!(!is_cache_file("f_00630"));
    assert!(!is_cache_file("f_00630b0"));
    assert!(!is_cache_file("f_00g30b"));
}

#[test]
fn simple_cache_names() {
    assert!(is_cache_file("170e8695a0c85bd4_0"));
    assert!(is_cache_file("170e8695a0c85bd4_1"));
    assert!(is_cache_file("170E8695A0C85BD4_s"));
    assert!(!is_cache_file("170e8695a0c85bd4_2"));
    assert!(!is_cache_file("170e8695a0c85bd4_S"));
    assert!(!is_cache_file("170e8695a0c85bd_0"));
    assert!(!is_cache_file("index"));
    assert!(!is_cache_file("the-real-index"));
    assert!(!is_cache_file(""));
}

#[test]
fn stream_kinds_from_paths() {
    assert!(is_simple_cache_stream2("/c/Cache_Data/170e8695a0c85bd4_1"));
    assert!(!is_simple_cache_stream2("/c/Cache_Data/170e8695a0c85bd4_0"));
    assert!(is_simple_cache_sparse("/c/Cache_Data/170e8695a0c85bd4_s"));
    assert!(!is_simple_cache_sparse("/c/Cache_Data/f_000001"));
}

#[test]
fn blockfile_numbers() {
    assert_eq!(parse_cache_hex("/x/Cache/f_00630b"), Some(0x630b));
    assert_eq!(parse_cache_hex("f_0000ff"), Some(0xff));
    assert_eq!(parse_cache_hex("/c/f_000013"), Some(19));
    assert_eq!(parse_cache_hex("f_0000FF"), None);
    assert_eq!(parse_cache_hex("/c/170e8695a0c85bd4_0"), None);
    assert_eq!(parse_cache_hex("/x/Cache/f_0063"), None);
    assert_eq!(parse_cache_hex("/x/Cache/g_00630b"), None);
    assert_eq!(blockfile_hex("f_+12345"), None);
    assert_eq!(blockfile_hex("f_+00013"), None);
    assert_eq!(blockfile_hex("f_00x30b"), None);
}

#[test]
fn client_names() {
    assert_eq!(extract_client_name("/home/u/.config/discordcanary/Cache/Cache_Data"), "Discord Canary");
    assert_eq!(extract_client_name("C:\\Users\\u\\AppData\\Roaming\\Discord\\Cache"), "Discord");
    assert_eq!(
        extract_client_name("/Users/u/Library/Application Support/Google/Chrome/Profile 2/Cache/Cache_Data"),
        "Chrome (Profile 2)"
    );
    assert_eq!(extract_client_name("/home/u/.cache/microsoft-edge/Default/Cache"), "Edge");
    assert_eq!(extract_client_name("/tmp/somewhere"), "Custom");
    assert_eq!(extract_client_name("/x/BraveSoftware/Brave-Browser/Default/Cache"), "Brave");
}

#[test]
fn profile_labels() {
    assert_eq!(extract_profile_label("a\\Profile 3\\Cache"), Some("Profile 3".to_string()));
    assert_eq!(extract_profile_label("/a/Default/Cache/Cache_Data"), None);
    assert!(is_profile_dir_name("Profile 1"));
    assert!(!is_profile_dir_name("Profile"));
    assert!(!is_profile_dir_name("Default"));
}

#[test]
fn profile_cache_layout() {
    assert_eq!(resolve_cache_dir(true, true), CacheDirLayout::CacheData);
    assert_eq!(resolve_cache_dir(false, true), CacheDirLayout::CacheOnly);
    assert_eq!(resolve_cache_dir(false, false), CacheDirLayout::CacheData);
}

#[test]
fn directory_summary() {
    let files = vec![
        ("f_000001".to_string(), 10u64),
        ("index".to_string(), 1000u64),
        ("0123456789abcdef_s".to_string(), 5u64),
    ];
    let info = summarize_cache_dir("/h/.config/discord/Cache/Cache_Data", true, &files);
    assert_eq!(info.file_count, 2);
    assert_eq!(info.total_size, 15);
    assert_eq!(info.client_name, "Discord");
    assert!(info.exists);
    let missing = summarize_cache_dir("/nowhere", false, &files);
    assert_eq!((missing.file_count, missing.total_size, missing.exists), (0, 0, false));
    let s = AppState { scan_running: false, recovery_running: true };
    assert!(s.recovery_running && !s.scan_running);
}
