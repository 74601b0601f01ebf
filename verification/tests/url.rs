use nano_downloader::url::{file_name, part_file_name, url_from_line, UrlError};
use std::path::Path;

#[test]
fn trims_typed_url() {
    assert_eq!(url_from_line("  http://a/b.mp4\n"), Ok("http://a/b.mp4".to_string()));
    assert_eq!(url_from_line("http://a"), Ok("http://a".to_string()));
}

#[test]
fn refuses_empty_url() {
    assert_eq!(url_from_line("\n"), Err(UrlError::Empty));
    assert_eq!(url_from_line(""), Err(UrlError::Empty));
    assert_eq!(url_from_line(" \t\u{3000}\r\n"), Err(UrlError::Empty));
}

#[test]
fn file_name_of_url() {
    assert_eq!(file_name("http://videos.example.org/media/a.mp4"), Some("a.mp4".to_string()));
    assert_eq!(file_name("http://x/dir/"), Some("dir".to_string()));
}

#[test]
fn file_name_edge_cases() {
    assert_eq!(file_name("/"), None);
    assert_eq!(file_name(""), None);
    assert_eq!(file_name("."), None);
    assert_eq!(file_name("a/.."), None);
    assert_eq!(file_name("foo.txt/."), Some("foo.txt".to_string()));
    assert_eq!(file_name("foo.txt/.//"), Some("foo.txt".to_string()));
    assert_eq!(file_name("./a"), Some("a".to_string()));
}

#[test]
fn file_name_agrees_with_path() {
    for s in [
        "", "/", ".", "..", "./", "a", "a/", "a/.", "a/..", "/a/b", "//a//b//", "x/./y/.", "http://h/f.bin",
        "...", "a/...", ".hidden", "a/.b/",
    ] {
        let expected = Path::new(s).file_name().map(|n| n.to_str().unwrap().to_string());
        assert_eq!(file_name(s), expected, "{:?}", s);
    }
}

#[test]
fn names_part_files() {
    assert_eq!(part_file_name("video.mp4", 3), "video.mp4.part3");
    assert_eq!(part_file_name("f", 0), "f.part0");
}
