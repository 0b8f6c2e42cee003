use bandcamp_dl::download::{
    existing_target, get_filename, resolve_download_name, status_is_success, target_path,
    DownloadError,
};
use bandcamp_dl::header::{content_disposition_filename, get_content_length_bytes, percent_decode};
use bandcamp_dl::names::{is_plain_component, normalize_audio_extension};

#[test]
fn quoted_aiff_name_is_truncated() {
    let r = resolve_download_name(200, Some("filename=\"track.aiff\""));
    assert_eq!(r, Ok("track.aif".to_string()));
}

#[test]
fn bandcamp_style_header_gives_name() {
    let h = "attachment; filename=\"Artist - Album.zip\"; filename*=UTF-8''Artist%20-%20Album.zip";
    assert_eq!(get_filename(Some(h)), Ok("Artist - Album.zip".to_string()));
}

#[test]
fn extended_form_is_percent_decoded() {
    let h = "attachment; filename*=UTF-8''Caf%C3%A9%20Song.aiff";
    assert_eq!(content_disposition_filename(h), Some("Café Song.aiff".to_string()));
    assert_eq!(
        resolve_download_name(200, Some(h)),
        Ok("Café Song.aif".to_string())
    );
}

#[test]
fn extended_form_without_charset() {
    assert_eq!(
        content_disposition_filename("attachment; filename*=a%2Eflac"),
        Some("a.flac".to_string())
    );
}

#[test]
fn extended_form_with_invalid_utf8_names_nothing() {
    assert_eq!(content_disposition_filename("attachment; filename*=UTF-8''%FF%FE"), None);
}

#[test]
fn key_inside_another_word_does_not_count() {
    assert_eq!(content_disposition_filename("attachment; xfilename=\"a.zip\""), None);
    assert_eq!(content_disposition_filename("attachment; filename=\"\""), None);
    assert_eq!(content_disposition_filename("attachment; filename=\"open"), None);
}

#[test]
fn missing_header_is_missing_filename() {
    assert_eq!(get_filename(None), Err(DownloadError::MissingFilename));
    assert_eq!(
        resolve_download_name(200, Some("inline")),
        Err(DownloadError::MissingFilename)
    );
}

#[test]
fn failed_status_is_an_error() {
    assert_eq!(
        resolve_download_name(404, Some("filename=\"a.zip\"")),
        Err(DownloadError::Status(404))
    );
    assert!(status_is_success(200));
    assert!(status_is_success(299));
    assert!(!status_is_success(300));
    assert!(!status_is_success(199));
}

#[test]
fn name_that_would_leave_the_directory_is_refused() {
    assert_eq!(
        resolve_download_name(200, Some("filename=\"../evil.zip\"")),
        Err(DownloadError::UnsafeFilename("../evil.zip".to_string()))
    );
    assert_eq!(
        resolve_download_name(200, Some("filename=\"..\"")),
        Err(DownloadError::UnsafeFilename("..".to_string()))
    );
    assert_eq!(
        resolve_download_name(200, Some("filename*=sub%2Fx.zip")),
        Err(DownloadError::UnsafeFilename("sub/x.zip".to_string()))
    );
}

#[test]
fn existing_target_policy() {
    assert_eq!(existing_target("a.zip", false, false), Ok(false));
    assert_eq!(existing_target("a.zip", false, true), Ok(false));
    assert_eq!(existing_target("a.zip", true, true), Ok(true));
    assert_eq!(
        existing_target("a.zip", true, false),
        Err(DownloadError::AlreadyExists("a.zip".to_string()))
    );
}

#[test]
fn target_path_parent_is_directory() {
    assert_eq!(target_path("/music", "a.aif"), "/music/a.aif");
}

#[test]
fn content_length_values() {
    assert_eq!(get_content_length_bytes(None), 0);
    assert_eq!(get_content_length_bytes(Some("12345")), 12345);
    assert_eq!(get_content_length_bytes(Some("+7")), 7);
    assert_eq!(get_content_length_bytes(Some("")), 0);
    assert_eq!(get_content_length_bytes(Some("+")), 0);
    assert_eq!(get_content_length_bytes(Some("12a")), 0);
    assert_eq!(get_content_length_bytes(Some("-1")), 0);
    assert_eq!(
        get_content_length_bytes(Some("18446744073709551615")),
        u64::MAX
    );
    assert_eq!(get_content_length_bytes(Some("18446744073709551616")), 0);
}

#[test]
fn percent_decoding() {
    assert_eq!(percent_decode("a%20b"), Some(b"a b".to_vec()));
    assert_eq!(percent_decode("%e2%82%ac"), Some(vec![0xe2, 0x82, 0xac]));
    assert_eq!(percent_decode("%2"), None);
    assert_eq!(percent_decode("%zz"), None);
    assert_eq!(percent_decode("é"), None);
    assert_eq!(percent_decode(""), Some(Vec::new()));
}

#[test]
fn audio_extension_normalization() {
    assert_eq!(normalize_audio_extension("track.aiff"), "track.aif");
    assert_eq!(normalize_audio_extension("track.aif"), "track.aif");
    assert_eq!(normalize_audio_extension("track.AIFF"), "track.AIFF");
    assert_eq!(normalize_audio_extension("track.flac"), "track.flac");
    assert_eq!(normalize_audio_extension("aiff"), "aiff");
}

#[test]
fn plain_components() {
    assert!(is_plain_component("a.zip"));
    assert!(!is_plain_component(""));
    assert!(!is_plain_component("."));
    assert!(!is_plain_component(".."));
    assert!(!is_plain_component("a/b"));
    assert!(!is_plain_component("a\\b"));
    assert!(is_plain_component("..."));
}
