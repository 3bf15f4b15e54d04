use vps_probe::http::{
    reason, response_head, split_url, Call, Intake, Reading, Resp, Stage, Step, Want,
};
use vps_probe::url::{parse_query, url_decode, url_decode_name, url_encode};

fn pair(k: &str, v: &str) -> (String, String) {
    (k.to_string(), v.to_string())
}

fn value<'a>(t: &'a Vec<(String, String)>, k: &str) -> Option<&'a str> {
    t.iter().find(|p| p.0 == k).map(|p| p.1.as_str())
}

#[test]
fn splits_addresses() {
    assert_eq!(split_url("http://h/p?q").unwrap(), ("h".to_string(), 80, "/p?q".to_string()));
    assert_eq!(split_url("http://h:8080").unwrap(), ("h".to_string(), 8080, "/".to_string()));
    assert_eq!(split_url("http://h:x/a:b").unwrap(), ("h".to_string(), 80, "/a:b".to_string()));
    assert_eq!(split_url("http://h:70000/").unwrap(), ("h".to_string(), 80, "/".to_string()));
    assert_eq!(split_url("http://[::1]:99/").unwrap(), ("[::1]".to_string(), 99, "/".to_string()));
    assert_eq!(split_url("http://").unwrap(), ("".to_string(), 80, "/".to_string()));
    assert_eq!(
        split_url("https://h/").unwrap_err(),
        "only http:// URLs are supported (no TLS in this build)"
    );
    assert!(split_url("h/").is_err());
}

#[test]
fn lays_out_requests() {
    let c = Call {
        method: "POST".to_string(),
        url: "http://h:81/p".to_string(),
        headers: vec![pair("X-A", "1")],
        body: Some("香".to_string()),
    };
    let o = c.outgoing().unwrap();
    assert_eq!((o.host.as_str(), o.port), ("h", 81));
    assert_eq!(
        o.text,
        "POST /p HTTP/1.1\r\nHost: h:81\r\nConnection: close\r\nUser-Agent: vps-probe/2.0\r\nX-A: 1\r\n\
         Content-Length: 3\r\n\r\n香"
    );
    let c = Call { method: "GET".to_string(), url: "http://h".to_string(), headers: vec![], body: None };
    assert_eq!(
        c.outgoing().unwrap().text,
        "GET / HTTP/1.1\r\nHost: h:80\r\nConnection: close\r\nUser-Agent: vps-probe/2.0\r\n\r\n"
    );
    let c = Call {
        method: "POST".to_string(),
        url: "http://h".to_string(),
        headers: vec![pair("content-LENGTH", "2")],
        body: Some("ab".to_string()),
    };
    assert!(c.outgoing().unwrap().text.ends_with("content-LENGTH: 2\r\n\r\nab"));
    let c = Call {
        method: "POST".to_string(),
        url: "http://h".to_string(),
        headers: vec![],
        body: Some(String::new()),
    };
    assert!(c.outgoing().unwrap().text.ends_with("2.0\r\n\r\n"));
    let c = Call { method: "GET".to_string(), url: "ftp://h".to_string(), headers: vec![], body: None };
    assert!(c.outgoing().is_err());
}

#[test]
fn finds_headers() {
    let r = Resp {
        status: 200,
        headers: vec![pair("Set-Cookie", "a=1"), pair("X", "y"), pair("set-cookie", "b=2")],
        body: String::new(),
    };
    assert_eq!(r.header("SET-COOKIE"), Some("a=1"));
    assert_eq!(r.header("x"), Some("y"));
    assert_eq!(r.header("z"), None);
    assert_eq!(r.headers_all("Set-cookie"), vec!["a=1", "b=2"]);
    assert!(r.headers_all("z").is_empty());
}

#[test]
fn reads_a_reply_of_known_length() {
    let mut r = Reading::new();
    assert_eq!(r.want(), Want::Line);
    r.line(Some("HTTP/1.1 200 OK\r\n")).unwrap();
    r.line(Some("Content-Type:  text/plain \r\n")).unwrap();
    r.line(Some("no colon\r\n")).unwrap();
    r.line(Some("content-length: 5\r\n")).unwrap();
    r.line(Some("Transfer-Encoding: chunked\r\n")).unwrap();
    r.line(Some("\r\n")).unwrap();
    assert_eq!(r.want(), Want::Bytes(5));
    r.bytes(&b"hello".to_vec());
    assert_eq!(r.want(), Want::Nothing);
    let resp = r.finish();
    assert_eq!(resp.status, 200);
    assert_eq!(resp.header("Content-Type"), Some("text/plain"));
    assert_eq!(resp.headers.len(), 3);
    assert_eq!(resp.body, "hello");
}

#[test]
fn reads_a_reply_in_chunks() {
    let mut r = Reading::new();
    r.line(Some("HTTP/1.0 404 Not Found\n")).unwrap();
    r.line(Some("Transfer-Encoding: gzip, Chunked\n")).unwrap();
    r.line(Some("\n")).unwrap();
    assert_eq!(r.want(), Want::Line);
    r.line(Some("3;ext=1\r\n")).unwrap();
    assert_eq!(r.want(), Want::Bytes(3));
    r.bytes(&b"abc".to_vec());
    assert_eq!(r.want(), Want::Bytes(2));
    r.bytes(&b"\r\n".to_vec());
    r.line(Some("A\r\n")).unwrap();
    assert_eq!(r.want(), Want::Bytes(10));
    r.bytes(&b"0123456789".to_vec());
    r.bytes(&b"\r\n".to_vec());
    r.line(Some("0\r\n")).unwrap();
    assert_eq!(r.want(), Want::Nothing);
    let resp = r.finish();
    assert_eq!((resp.status, resp.body.as_str()), (404, "abc0123456789"));
}

#[test]
fn a_size_that_is_no_number_ends_the_chunks() {
    let mut r = Reading::new();
    r.line(Some("HTTP/1.1 200 OK\r\n")).unwrap();
    r.line(Some("Transfer-Encoding: chunked\r\n")).unwrap();
    r.line(None).unwrap();
    r.line(Some("xyz\r\n")).unwrap();
    assert_eq!(r.stage, Stage::Done);
}

#[test]
fn reads_a_reply_up_to_the_end() {
    let mut r = Reading::new();
    r.line(Some("HTTP/1.1 500 x\r\n")).unwrap();
    r.line(Some("Content-Length: many\r\n")).unwrap();
    r.line(Some("\r\n")).unwrap();
    assert_eq!(r.want(), Want::Rest);
    r.bytes(&vec![0x61, 0xff, 0xe9, 0xa6, 0x99]);
    let resp = r.finish();
    assert_eq!(resp.body, "a\u{fffd}香");
}

#[test]
fn bad_status_lines_are_named() {
    let mut r = Reading::new();
    assert_eq!(r.line(Some(" HTTP/1.1 abc \r\n")).unwrap_err(), "bad status line: HTTP/1.1 abc");
    assert_eq!(r.line(None).unwrap_err(), "bad status line: ");
    assert_eq!(r.line(Some("HTTP/1.1 65536\r\n")).unwrap_err(), "bad status line: HTTP/1.1 65536");
}

#[test]
fn reads_a_request() {
    let mut r = Intake::new();
    assert_eq!(r.want(), Want::Line);
    r.line(Some("POST /api/hosts?key=a%20b&x=1&x=2&flag HTTP/1.1\r\n"));
    r.line(Some("Host: h\r\n"));
    r.line(Some("X-A: 1\r\n"));
    r.line(Some("x-a: 2\r\n"));
    r.line(Some("CONTENT-LENGTH: 3\r\n"));
    r.line(Some("\r\n"));
    assert_eq!(r.want(), Want::Bytes(3));
    r.bytes(&"香".as_bytes().to_vec());
    assert_eq!(r.step, Step::Done);
    let q = r.finish();
    assert_eq!((q.method.as_str(), q.path.as_str(), q.body.as_str()), ("POST", "/api/hosts", "香"));
    assert_eq!(value(&q.query, "key"), Some("a b"));
    assert_eq!(value(&q.query, "x"), Some("2"));
    assert_eq!(value(&q.query, "flag"), Some(""));
    assert_eq!(q.query.len(), 3);
    assert_eq!(q.header("X-a"), Some("2"));
    assert_eq!(q.header("host"), Some("h"));
    assert_eq!(q.headers.len(), 3);
}

#[test]
fn a_request_without_a_target_is_given_up() {
    let mut r = Intake::new();
    r.line(Some("GET\r\n"));
    assert_eq!(r.step, Step::Closed);
    let mut r = Intake::new();
    r.line(None);
    assert_eq!((r.step, r.want()), (Step::Closed, Want::Nothing));
}

#[test]
fn a_request_without_a_body_is_done_after_the_headers() {
    let mut r = Intake::new();
    r.line(Some("GET /x HTTP/1.1\r\n"));
    r.line(Some("Content-Length: none\r\n"));
    r.line(None);
    assert_eq!(r.step, Step::Done);
    let q = r.finish();
    assert_eq!((q.path.as_str(), q.body.as_str(), q.query.len()), ("/x", "", 0));
}

/// Cuts a text into lines with their ends.
fn lines(s: &str) -> Vec<String> {
    s.split_inclusive('\n').map(|l| l.to_string()).collect()
}

#[test]
fn the_client_reads_what_the_server_answers() {
    let body = "{\"名\":1}";
    let head = response_head(403, "application/json", body);
    assert_eq!(
        head,
        "HTTP/1.1 403 Forbidden\r\nContent-Type: application/json\r\nContent-Length: 9\r\n\
         Cache-Control: no-store\r\nConnection: close\r\n\r\n"
    );
    let mut r = Reading::new();
    for l in lines(&head) {
        r.line(Some(&l)).unwrap();
    }
    assert_eq!(r.want(), Want::Bytes(9));
    r.bytes(&body.as_bytes().to_vec());
    let resp = r.finish();
    assert_eq!((resp.status, resp.body.as_str()), (403, body));
    assert_eq!(resp.header("content-type"), Some("application/json"));
}

#[test]
fn the_server_reads_what_the_client_sends() {
    let c = Call {
        method: "POST".to_string(),
        url: "http://h:1/a/b?key=k".to_string(),
        headers: vec![pair("Cookie", "a=1; b=2")],
        body: Some("[1]".to_string()),
    };
    let o = c.outgoing().unwrap();
    let (head, body) = o.text.split_at(o.text.len() - 3);
    let mut r = Intake::new();
    for l in lines(head) {
        r.line(Some(&l));
    }
    assert_eq!(r.want(), Want::Bytes(3));
    r.bytes(&body.as_bytes().to_vec());
    let q = r.finish();
    assert_eq!((q.method.as_str(), q.path.as_str(), q.body.as_str()), ("POST", "/a/b", "[1]"));
    assert_eq!(q.header("cookie"), Some("a=1; b=2"));
    assert_eq!(value(&q.query, "key"), Some("k"));
}

#[test]
fn reasons() {
    assert_eq!(reason(200), "OK");
    assert_eq!(reason(400), "Bad Request");
    assert_eq!(reason(403), "Forbidden");
    assert_eq!(reason(404), "Not Found");
    assert_eq!(reason(500), "Internal Server Error");
    assert_eq!(reason(204), "OK");
}

#[test]
fn decodes_urls() {
    assert_eq!(url_decode("a%20b+c%2Bd"), "a b c+d");
    assert_eq!(url_decode("%E9%A6%99"), "香");
    assert_eq!(url_decode("100%"), "100%");
    assert_eq!(url_decode("%zz%4"), "%zz%4");
    assert_eq!(url_decode("%ff"), "\u{fffd}");
    assert_eq!(url_decode_name("a%20b+c"), "a b+c");
    assert_eq!(url_decode_name("%E9"), "\u{fffd}");
    assert_eq!(url_decode_name("%C3%A9"), "é");
}

#[test]
fn encoding_is_undone() {
    assert_eq!(url_encode("a b/c?香~"), "a%20b%2Fc%3F%E9%A6%99~");
    for s in ["", "HK-VPS", "100% + 1 & 2", "香港 \u{1F600}", "\u{0}\u{7f}"] {
        assert_eq!(url_decode(&url_encode(s)), s);
    }
    for s in ["HK-VPS", "a b+c%", "x/y?z#", "é", "香港 \u{1F600}"] {
        assert_eq!(url_decode_name(&url_encode(s)), s);
    }
}

#[test]
fn parses_queries() {
    let q = parse_query("a=1&b&&c=x=y&a=%32&=v");
    assert_eq!(value(&q, "a"), Some("2"));
    assert_eq!(value(&q, "b"), Some(""));
    assert_eq!(value(&q, "c"), Some("x=y"));
    assert_eq!(value(&q, ""), Some("v"));
    assert_eq!(q.len(), 4);
    assert!(parse_query("").is_empty());
}
