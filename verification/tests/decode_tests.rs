use github_fetcher_mcp::client::{
    decode_file_contents, contents_segments, GithubContentType, GithubContents, GithubFile,
};

fn file_with(content: Option<&str>, encoding: Option<&str>) -> GithubContents {
    GithubContents::File(GithubFile {
        path: "dir/file.txt".to_string(),
        kind: GithubContentType::File,
        size: None,
        content: content.map(|c| c.to_string()),
        encoding: encoding.map(|e| e.to_string()),
        target: None,
        submodule_git_url: None,
    })
}

#[test]
fn decodes_base64_file_content() {
    let text = decode_file_contents(file_with(Some("aGVsbG8="), None)).unwrap();
    assert_eq!(text, "hello");
}

#[test]
fn strips_newlines_from_the_payload_before_decoding() {
    let text = decode_file_contents(file_with(Some("aGVs\nbG8g\nd29ybGQ=\n"), Some("base64")))
        .unwrap();
    assert_eq!(text, "hello world");
}

#[test]
fn rejects_directories_with_a_validation_error() {
    let err = decode_file_contents(GithubContents::Directory(vec![])).unwrap_err();
    assert_eq!(err.code, "400");
    assert_eq!(err.message, "Requested path is a directory, not a file.");
}

#[test]
fn rejects_unsupported_encodings() {
    let err = decode_file_contents(file_with(Some("aGVsbG8="), Some("utf-16"))).unwrap_err();
    assert_eq!(err.code, "0");
    assert_eq!(err.message, "Unsupported encoding: utf-16");
}

#[test]
fn rejects_missing_content() {
    let err = decode_file_contents(file_with(None, None)).unwrap_err();
    assert_eq!(err.code, "0");
    assert_eq!(err.message, "File content missing");
}

#[test]
fn rejects_invalid_base64() {
    let err = decode_file_contents(file_with(Some("!!!"), None)).unwrap_err();
    assert_eq!(err.code, "0");
}

#[test]
fn rejects_payloads_that_are_not_utf8() {
    // base64 of the bytes 0xff 0xfe, which no UTF-8 text contains
    let err = decode_file_contents(file_with(Some("//4="), None)).unwrap_err();
    assert_eq!(err.code, "0");
}

#[test]
fn builds_contents_url_segments() {
    let segs = contents_segments("octo", "repo", "src/lib.rs");
    assert_eq!(segs, ["repos", "octo", "repo", "contents", "src", "lib.rs"]);

    let root = contents_segments("octo", "repo", "");
    assert_eq!(root, ["repos", "octo", "repo", "contents"]);

    let messy = contents_segments("octo", "repo", "/a//b/");
    assert_eq!(messy, ["repos", "octo", "repo", "contents", "a", "b"]);
}
