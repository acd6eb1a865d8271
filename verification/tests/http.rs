//! Addresses, requests and answers.

use classagent::http::body_text;
use classagent::http::head_state;
use classagent::http::judge;
use classagent::http::succeeded;
use classagent::http::post_head;
use classagent::http::read_head;
use classagent::http::read_head_bytes;
use classagent::http::request_head;
use classagent::http::split_url;
use classagent::http::HeadState;

#[test]
fn parses_host_port_path() {
    let (h, p, path) = split_url("http://127.0.0.1:8786/api/health").unwrap();
    assert_eq!((h.as_str(), p, path.as_str()), ("127.0.0.1", 8786, "/api/health"));
    let (h2, p2, path2) = split_url("http://localhost").unwrap();
    assert_eq!((h2.as_str(), p2, path2.as_str()), ("localhost", 80, "/"));
}

#[test]
fn rejects_non_http() {
    assert!(split_url("https://x/").is_err());
}

#[test]
fn every_bad_address_has_its_message() {
    assert!(split_url("ftp://x").unwrap_err().contains("只支持 http://"));
    assert_eq!(split_url("http://h:70000/").unwrap_err(), "端口非法");
    assert_eq!(split_url("http://h:/").unwrap_err(), "端口非法");
    assert_eq!(split_url("http:///x").unwrap_err(), "URL 缺主机");
    assert_eq!(split_url("http://h:+8/x").unwrap(), ("h".to_string(), 8, "/x".to_string()));
}

#[test]
fn requests_say_what_they_carry() {
    assert_eq!(
        request_head("GET", "127.0.0.1", "/api/health", None, 0),
        "GET /api/health HTTP/1.1\r\nHost: 127.0.0.1\r\nUser-Agent: agent-observer\r\n\
         Accept: application/json, text/plain\r\nContent-Length: 0\r\nConnection: close\r\n\r\n"
    );
    assert_eq!(
        post_head("h:8790", "/api/ingest", Some("t"), 12),
        "POST /api/ingest HTTP/1.1\r\nHost: h:8790\r\nUser-Agent: classagent-core\r\n\
         Content-Type: application/json\r\nX-ClassAgent-Token: t\r\nContent-Length: 12\r\n\
         Connection: close\r\nAccept: application/json\r\n\r\n"
    );
}

#[test]
fn heads_end_at_the_empty_line() {
    assert_eq!(head_state(b"HTTP/1.1 200 OK\r\n", 64), HeadState::More);
    assert_eq!(head_state(b"HTTP/1.1 200 OK\r\n\r\n", 64), HeadState::Complete);
    assert_eq!(head_state(&[b'x'; 65], 64), HeadState::TooLarge);
    assert_eq!(head_state(&[b'x'; 64], 64), HeadState::More);
}

#[test]
fn heads_state_code_and_length() {
    let head = "HTTP/1.1 404 Not Found\r\ncontent-LENGTH :  17 \r\nServer: x\r\n\r\n";
    assert_eq!(read_head(head), (404, 17));
    assert_eq!(read_head_bytes(head.as_bytes()), (404, 17));
    assert_eq!(read_head(""), (0, 0));
    assert_eq!(read_head("HTTP/1.1 nonsense\r\nContent-Length: x\r\n"), (0, 0));
}

#[test]
fn bodies_are_text_even_where_they_are_none() {
    assert_eq!(body_text("课".as_bytes()), "课");
    assert_eq!(body_text(&[b'a', 0xff, b'b']), "a\u{fffd}b");
}

#[test]
fn only_good_answers_are_passed_on() {
    assert_eq!(judge(200, "x".to_string()), Ok("x".to_string()));
    assert_eq!(judge(299, "x".to_string()), Ok("x".to_string()));
    assert_eq!(judge(300, "x".to_string()), Err("HTTP 300: x".to_string()));
    assert_eq!(judge(199, "x".to_string()), Err("HTTP 199: x".to_string()));
}

#[test]
fn success_is_told_by_the_code() {
    assert!(succeeded(200) && succeeded(299));
    assert!(!succeeded(199) && !succeeded(300) && !succeeded(0));
}
