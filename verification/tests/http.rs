use nano_downloader::http::{
    body_offset, content_length_in_response, head_request, length_header_value, range_header_value,
    range_request, LengthHeaderError,
};

#[test]
fn builds_head_request() {
    assert_eq!(
        head_request("videos.example.org", "/media/a.mp4"),
        "HEAD /media/a.mp4 HTTP/1.1\r\nHost: videos.example.org\r\nConnection: close\r\n\r\n"
    );
}

#[test]
fn builds_range_request() {
    assert_eq!(
        range_request("h", "/f", 0, 1023),
        "GET /f HTTP/1.1\r\nHost: h\r\nRange: bytes=0-1023\r\nConnection: close\r\n\r\n"
    );
}

#[test]
fn builds_range_header() {
    assert_eq!(range_header_value(1048576, 2097151), "bytes=1048576-2097151");
    assert_eq!(range_header_value(0, 0), "bytes=0-0");
}

#[test]
fn reads_content_length() {
    let r = "HTTP/1.1 200 OK\r\nContent-Type: video/mp4\r\nContent-Length: 1234\r\n\r\n";
    assert_eq!(content_length_in_response(r), Some(1234));
}

#[test]
fn missing_content_length_is_zero() {
    assert_eq!(content_length_in_response("HTTP/1.1 200 OK\r\nServer: x\r\n\r\n"), Some(0));
    assert_eq!(content_length_in_response(""), Some(0));
}

#[test]
fn first_content_length_line_decides() {
    let r = "Content-Length: 7\r\nContent-Length: 9\r\n";
    assert_eq!(content_length_in_response(r), Some(7));
}

#[test]
fn content_length_is_case_sensitive() {
    assert_eq!(content_length_in_response("content-length: 5\r\n"), Some(0));
}

#[test]
fn content_length_field_stops_at_colon_and_is_trimmed() {
    assert_eq!(content_length_in_response("Content-Length:\t 42 :junk\n"), Some(42));
    assert_eq!(content_length_in_response("Content-Length:42\u{a0}\n"), Some(42));
}

#[test]
fn bad_content_length_is_refused() {
    assert_eq!(content_length_in_response("Content-Length: abc\r\n"), None);
    assert_eq!(content_length_in_response("Content-Length:\r\n"), None);
}

#[test]
fn finds_body_after_blank_line() {
    let r = b"HTTP/1.1 206 Partial Content\r\nX: y\r\n\r\nBODY";
    let off = body_offset(r);
    assert_eq!(&r[off..], b"BODY");
}

#[test]
fn blank_line_at_the_very_end_is_not_found() {
    let r = b"HTTP/1.1 200 OK\r\n\r\n";
    assert_eq!(r.len(), 19);
    assert_eq!(body_offset(r), 0);
    assert_eq!(body_offset(b"\r\n\r\n"), 0);
    assert_eq!(body_offset(b"\r\n\r\nx"), 4);
}

#[test]
fn no_blank_line_takes_whole_response() {
    assert_eq!(body_offset(b""), 0);
    assert_eq!(body_offset(b"HTTP/1.1 200 OK\r\n"), 0);
    assert_eq!(body_offset(b"\r\n\r"), 0);
}

#[test]
fn first_blank_line_decides() {
    let r = b"A\r\n\r\nB\r\n\r\nC";
    assert_eq!(body_offset(r), 5);
}

#[test]
fn reads_header_value() {
    assert_eq!(length_header_value(Some(b"5000")), Ok(5000));
    assert_eq!(length_header_value(Some(b"+1")), Ok(1));
    assert_eq!(length_header_value(Some(b" 5")), Err(LengthHeaderError::NotANumber));
    assert_eq!(length_header_value(Some(b"")), Err(LengthHeaderError::NotANumber));
    assert_eq!(length_header_value(Some(&[0xff, 0x31])), Err(LengthHeaderError::InvalidUtf8));
    assert_eq!(length_header_value(None), Err(LengthHeaderError::Missing));
}
