use bandcamp_dl::urls::{parse_urls, urls_from_parsed, UnrecognizedUrls};

#[test]
fn argument_url_deserialization() {
    let input = r#"[
                "https://p4.bcbits.com/download/track/1b37d456848ecb79c2",
                "https://p4.bcbits.com/download/track/156807d37379c36a35",
                "https://p4.bcbits.com/download/track/1d231057b370614747",
                "https://p4.bcbits.com/download/track/1d23267dc839a60375",
                "https://p4.bcbits.com/download/track/159d2c2882254493a0",
                "https://p4.bcbits.com/download/track/1c6e680dfda072ca82",
                "https://p4.bcbits.com/download/track/11f650a2b8db1ef52f",
                "https://p4.bcbits.com/download/album/178dd6dd97f4418b69",
                "https://p4.bcbits.com/download/album/1e19efdce8d9084a55",
                "https://p4.bcbits.com/download/track/1f20390aef121b1671"
            ]"#;

    let urls: Vec<String> = parse_urls(input).expect("Failed to parse URLs");
    assert_eq!(urls.len(), 10);
    assert_eq!(
        urls,
        vec![
            "https://p4.bcbits.com/download/track/1b37d456848ecb79c2",
            "https://p4.bcbits.com/download/track/156807d37379c36a35",
            "https://p4.bcbits.com/download/track/1d231057b370614747",
            "https://p4.bcbits.com/download/track/1d23267dc839a60375",
            "https://p4.bcbits.com/download/track/159d2c2882254493a0",
            "https://p4.bcbits.com/download/track/1c6e680dfda072ca82",
            "https://p4.bcbits.com/download/track/11f650a2b8db1ef52f",
            "https://p4.bcbits.com/download/album/178dd6dd97f4418b69",
            "https://p4.bcbits.com/download/album/1e19efdce8d9084a55",
            "https://p4.bcbits.com/download/track/1f20390aef121b1671"
        ]
    );
}

#[test]
fn argument_single_url_string() {
    let urls: Vec<String> = parse_urls(r"https://p4.bcbits.com/download/album/10").unwrap();
    assert_eq!(urls.len(), 1);
    assert_eq!(urls, vec!["https://p4.bcbits.com/download/album/10"]);
}

#[test]
fn full_arguments() {
    let urls: Vec<String> = parse_urls(
        r#"["https://p4.bcbits.com/download/track/1", "https://p4.bcbits.com/download/track/2"]"#,
    )
    .expect("Failed to parse URLs");
    assert_eq!(
        urls,
        vec![
            "https://p4.bcbits.com/download/track/1",
            "https://p4.bcbits.com/download/track/2"
        ]
    );
}

#[test]
fn urls_rejects_other_text() {
    assert_eq!(parse_urls("http://example.com/a"), Err(UnrecognizedUrls));
    assert_eq!(parse_urls("not a url"), Err(UnrecognizedUrls));
    assert_eq!(parse_urls("[1, 2]"), Err(UnrecognizedUrls));
}

#[test]
fn urls_empty_array_is_empty_list() {
    assert_eq!(parse_urls("[]"), Ok(Vec::<String>::new()));
}

#[test]
fn urls_from_parsed_prefers_the_array() {
    let parsed = Some(vec!["a".to_string(), "b".to_string()]);
    assert_eq!(
        urls_from_parsed("https://ignored", parsed),
        Ok(vec!["a".to_string(), "b".to_string()])
    );
    assert_eq!(
        urls_from_parsed("https://x/y", None),
        Ok(vec!["https://x/y".to_string()])
    );
    assert_eq!(urls_from_parsed("ftp://x", None), Err(UnrecognizedUrls));
}
