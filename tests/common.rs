use std::path::PathBuf;

use blowup::common::{find_command_path, find_in_listing};

#[test]
fn test_specified_path_is_invalid() {
    let invalid_path = PathBuf::from("this/path/does/not/exist/123");
    let result = find_command_path(Some(&invalid_path), "some-command");
    assert_eq!(result, None);
}

#[test]
fn test_no_path_specified_and_command_exists() {
    let result = find_command_path(None, "ls");
    assert!(result.is_some());
}

#[test]
fn test_no_path_specified_and_command_does_not_exist() {
    let non_existent_command = "a-very-unique-command-that-will-not-exist";
    let result = find_command_path(None, non_existent_command);
    assert_eq!(result, None);
}

fn item(name: &str) -> Option<(String, PathBuf)> {
    Some((name.to_string(), PathBuf::from(format!("/bin/{}", name))))
}

#[test]
fn listing_search_takes_first_match() {
    let listing = vec![item("bin"), item("cat"), item("ls"), item("ls")];
    assert_eq!(find_in_listing(&listing, "ls"), Some(2));
    assert_eq!(find_in_listing(&listing, "bin"), Some(0));
    assert_eq!(find_in_listing(&listing, "rm"), None);
}

#[test]
fn listing_search_stops_at_unreadable_item() {
    let listing = vec![item("bin"), None, item("ls")];
    assert_eq!(find_in_listing(&listing, "ls"), None);
    let listing = vec![item("ls"), None];
    assert_eq!(find_in_listing(&listing, "ls"), Some(0));
}

#[test]
fn command_found_in_real_directory() {
    let dir = PathBuf::from("/bin");
    if dir.join("sh").exists() {
        assert_eq!(find_command_path(Some(&dir), "sh"), Some(dir.join("sh")));
    }
}
