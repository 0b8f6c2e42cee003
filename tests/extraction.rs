use bandcamp_dl::archive::{entry_action, entry_target_path, sandbox_entry_path, EntryAction};

fn parts(v: &[&str]) -> Vec<String> {
    v.iter().map(|s| s.to_string()).collect()
}

#[test]
fn climbing_entry_is_rejected() {
    assert_eq!(entry_target_path("../../etc/passwd"), None);
    assert_eq!(
        entry_action("../../etc/passwd", false, false, true),
        EntryAction::Rejected
    );
    assert_eq!(entry_target_path("a/../../b"), None);
    assert_eq!(entry_target_path("..\\x"), None);
}

#[test]
fn rooted_entry_is_rejected() {
    assert_eq!(entry_target_path("/etc/passwd"), None);
    assert_eq!(entry_target_path("\\windows\\x"), None);
}

#[test]
fn entry_naming_the_destination_is_rejected() {
    assert_eq!(entry_target_path(""), None);
    assert_eq!(entry_target_path("."), None);
    assert_eq!(entry_target_path("a/.."), None);
}

#[test]
fn nested_entry_keeps_its_directories() {
    assert_eq!(
        entry_target_path("Album/Disc 1/01 Song.aiff"),
        Some(parts(&["Album", "Disc 1", "01 Song.aif"]))
    );
    assert_eq!(
        entry_target_path("./a//b/./c.flac"),
        Some(parts(&["a", "b", "c.flac"]))
    );
    assert_eq!(entry_target_path("a/../b.txt"), Some(parts(&["b.txt"])));
    assert_eq!(entry_target_path("dir/"), Some(parts(&["dir"])));
}

#[test]
fn sandbox_leaves_extension_alone() {
    assert_eq!(sandbox_entry_path("x/y.aiff"), Some(parts(&["x", "y.aiff"])));
}

#[test]
fn entry_with_nul_is_rejected() {
    assert_eq!(entry_target_path("a\0b"), None);
}

#[test]
fn present_file_skipped_without_overwrite() {
    let entries = [("cover.jpg", false), ("01.aiff", false), ("02.flac", false)];
    let present = ["01.aif"];
    let mut written = Vec::new();
    let mut kept = Vec::new();
    for (name, is_dir) in entries {
        let target = entry_target_path(name).unwrap();
        let exists = present.contains(&target.join("/").as_str());
        match entry_action(name, is_dir, exists, false) {
            EntryAction::WriteFile(t) => written.push(t.join("/")),
            EntryAction::KeepExisting(t) => kept.push(t.join("/")),
            other => panic!("unexpected action {other:?}"),
        }
    }
    assert_eq!(kept, vec!["01.aif"]);
    assert_eq!(written, vec!["cover.jpg", "02.flac"]);
}

#[test]
fn overwrite_makes_presence_irrelevant() {
    for name in ["a.aiff", "d/b.txt", "../c", "e/"] {
        for is_dir in [false, true] {
            assert_eq!(
                entry_action(name, is_dir, true, true),
                entry_action(name, is_dir, false, true)
            );
        }
    }
    assert_eq!(
        entry_action("a.aiff", false, true, true),
        EntryAction::WriteFile(parts(&["a.aif"]))
    );
}

#[test]
fn directory_entry_is_made() {
    assert_eq!(
        entry_action("Album/", true, true, false),
        EntryAction::MakeDirectory(parts(&["Album"]))
    );
}
