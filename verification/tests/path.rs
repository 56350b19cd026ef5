use imos::path::{
    components, is_current_dir, join_path, same_path, split_bytes, strip_components,
    validate_file_name, validate_relative_path, Component,
};

fn relative(path: &[u8], allow_current: bool) -> String {
    match validate_relative_path(path, allow_current) {
        Ok(()) => "ok".to_owned(),
        Err(error) => error.message(),
    }
}

#[test]
fn splits_at_every_separator() {
    assert_eq!(split_bytes(b"a/b", 47), vec![b"a".to_vec(), b"b".to_vec()]);
    assert_eq!(split_bytes(b"", 47), vec![Vec::<u8>::new()]);
    assert_eq!(split_bytes(b"/", 47), vec![Vec::<u8>::new(), Vec::<u8>::new()]);
    assert_eq!(split_bytes(b"a//b", 47), vec![b"a".to_vec(), Vec::new(), b"b".to_vec()]);
}

#[test]
fn joining_the_pieces_gives_the_whole_back() {
    for path in [&b"a/b/c"[..], b"/x//y/", b"", b"plain"] {
        assert_eq!(split_bytes(path, 47).join(&47_u8), path.to_vec());
    }
}

#[test]
fn steps_of_paths() {
    assert!(components(b"").is_empty());
    assert!(matches!(components(b".").as_slice(), [Component::CurDir]));
    assert!(matches!(components(b"/").as_slice(), [Component::RootDir]));
    assert!(matches!(
        components(b"/a/./b//../c/").as_slice(),
        [
            Component::RootDir,
            Component::Normal(_),
            Component::Normal(_),
            Component::ParentDir,
            Component::Normal(_)
        ]
    ));
}

#[test]
fn the_current_directory_can_be_written_in_several_ways() {
    assert!(is_current_dir(b"."));
    assert!(is_current_dir(b"./"));
    assert!(is_current_dir(b"././."));
    assert!(!is_current_dir(b""));
    assert!(!is_current_dir(b"/."));
    assert!(!is_current_dir(b"./a"));
}

#[test]
fn equal_paths_have_equal_steps() {
    assert!(same_path(b"a/b", b"a//b/"));
    assert!(same_path(b"a/./b", b"a/b"));
    assert!(!same_path(b"./a", b"a"));
    assert!(!same_path(b"/a", b"a"));
    assert!(!same_path(b"a/b", b"a/c"));
}

#[test]
fn relative_paths_are_checked() {
    assert_eq!(relative(b"a/b.txt", false), "ok");
    assert_eq!(relative(b"..a/b..", false), "ok");
    assert_eq!(relative(b".", false), "path contains an unsafe component: .");
    assert_eq!(relative(b".", true), "ok");
    assert_eq!(relative(b"", false), "path must not be empty");
    assert_eq!(relative(b"", true), "path must not be empty");
    assert_eq!(relative(b"/a", true), "path must be relative: /a");
    assert_eq!(relative(b"a\xff", false), "path must be valid UTF-8");
    assert_eq!(relative(b"a\0b", false), "path must not contain NUL");
    assert_eq!(relative(b"a/../b", false), "path contains an unsafe component: a/../b");
    assert_eq!(relative(b"a/./b", false), "path contains an unsafe component: a/./b");
    assert_eq!(relative(b"a/", false), "path contains an unsafe component: a/");
}

#[test]
fn absolute_paths_are_told_readably() {
    assert_eq!(relative(b"/a\xff", false), "path must be relative: /a\u{fffd}");
}

#[test]
fn file_names_are_checked() {
    assert!(validate_file_name(&"tool".to_owned()).is_ok());
    let error = |name: &str| validate_file_name(&name.to_owned()).unwrap_err().message();
    assert_eq!(error(""), "file name must not be empty");
    assert_eq!(error("a/b"), "expected a single file name: a/b");
    assert_eq!(error(".."), "path contains an unsafe component: ..");
    assert_eq!(error("/a"), "path must be relative: /a");
}

#[test]
fn joining_leads_from_the_base() {
    assert_eq!(join_path(b"/store", b"a/b"), b"/store/a/b".to_vec());
    assert_eq!(join_path(b"/store/", b"a"), b"/store/a".to_vec());
    assert_eq!(join_path(b"", b"a"), b"a".to_vec());
    assert_eq!(join_path(b"/store", b"/etc"), b"/etc".to_vec());
    assert_eq!(join_path(b"/store", b""), b"/store/".to_vec());
}

#[test]
fn accepted_paths_lead_below_the_base() {
    let joined = join_path(b"/store/root", b"share/x");
    assert!(validate_relative_path(b"share/x", false).is_ok());
    let base = components(b"/store/root").len();
    assert_eq!(components(&joined).len(), base + 2);
}

#[test]
fn leading_steps_are_stripped() {
    assert_eq!(strip_components(b"pkg/bin/tool", 1), Some(b"bin/tool".to_vec()));
    assert_eq!(strip_components(b"pkg/bin/tool", 0), Some(b"pkg/bin/tool".to_vec()));
    assert_eq!(strip_components(b"pkg", 1), None);
    assert_eq!(strip_components(b"pkg/", 1), None);
    assert_eq!(strip_components(b"pkg/bin", 5), None);
    assert_eq!(strip_components(b"/a//b/", 1), Some(b"a/b".to_vec()));
}
