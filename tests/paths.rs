use bandcamp_dl::utils::{
    extension, file_name, get_all_zip_files, get_filename_from_path, is_image_path, is_zip_path,
    relative_to, requested_path, zip_paths, NoFileName, PathEntry,
};

#[test]
fn file_names_and_extensions() {
    assert_eq!(file_name("/a/b/c.zip"), Some("c.zip".to_string()));
    assert_eq!(file_name("c.zip"), Some("c.zip".to_string()));
    assert_eq!(file_name("/a/b/"), None);
    assert_eq!(file_name("/a/.."), None);
    assert_eq!(extension("/a/b/c.tar.gz"), Some("gz".to_string()));
    assert_eq!(extension("/a/.zip"), None);
    assert_eq!(extension("/a/b"), None);
    assert_eq!(extension("/a/b."), Some(String::new()));
}

#[test]
fn zip_detection() {
    assert!(is_zip_path("/music/Album.zip"));
    assert!(!is_zip_path("/music/Album.ZIP"));
    assert!(!is_zip_path("/music/.zip"));
    assert!(!is_zip_path("/music/song.flac"));
}

#[test]
fn all_zip_files_are_regular_zip_files() {
    let paths = vec![
        PathEntry { path: "/m/a.zip".to_string(), is_file: true },
        PathEntry { path: "/m/b.flac".to_string(), is_file: true },
        PathEntry { path: "/m/dir.zip".to_string(), is_file: false },
        PathEntry { path: "/m/c.zip".to_string(), is_file: true },
    ];
    assert_eq!(get_all_zip_files(&paths), vec!["/m/a.zip", "/m/c.zip"]);
}

#[test]
fn zip_paths_by_extension() {
    let paths = vec!["x.zip".to_string(), "y.txt".to_string(), "z.zip".to_string()];
    assert_eq!(zip_paths(&paths), vec!["x.zip", "z.zip"]);
}

#[test]
fn filename_from_path_drops_replacement_characters() {
    assert_eq!(get_filename_from_path("/d/Al\u{FFFD}bum.zip"), Ok("Album.zip".to_string()));
    assert_eq!(get_filename_from_path("/d/"), Err(NoFileName));
}

#[test]
fn images_by_lowercase_extension() {
    assert!(is_image_path("/d/cover.jpg"));
    assert!(is_image_path("/d/cover.PNG"));
    assert!(is_image_path("/d/cover.JpEg"));
    assert!(!is_image_path("/d/song.flac"));
    assert!(!is_image_path("/d/jpg"));
}

#[test]
fn requested_path_trims() {
    assert_eq!(requested_path(Some("  /music  ".to_string())), Some("/music".to_string()));
    assert_eq!(requested_path(Some("   ".to_string())), None);
    assert_eq!(requested_path(None), None);
}

#[test]
fn relative_paths() {
    assert_eq!(relative_to("/home/u/music", "/home/u"), "music");
    assert_eq!(relative_to("/home/u", "/home/u"), "/home/u");
    assert_eq!(relative_to("/other/x", "/home/u"), "/other/x");
    assert_eq!(relative_to("/home/user", "/home/u"), "/home/user");
    assert_eq!(relative_to("/a/b", "/"), "a/b");
}
