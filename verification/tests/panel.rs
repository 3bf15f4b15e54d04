use vps_probe::http::{Call, Resp};
use vps_probe::panel::{fetch_traffic, join_cookies, Fetch, NodeTraffic, PanelCreds, PanelTraffic};

fn creds() -> PanelCreds {
    PanelCreds {
        url: "http://p:2054/base//".to_string(),
        username: "admin".to_string(),
        password: "se\"cret".to_string(),
    }
}

fn reply(status: u16, cookies: &[&str], body: &str) -> Result<Resp, String> {
    Ok(Resp {
        status,
        headers: cookies.iter().map(|c| ("Set-Cookie".to_string(), c.to_string())).collect(),
        body: body.to_string(),
    })
}

fn ask(replies: &Vec<Result<Resp, String>>) -> Call {
    match fetch_traffic(&creds(), replies) {
        Fetch::Ask(c) => c,
        Fetch::Done(t) => panic!("done: {:?}", t),
    }
}

fn done(replies: &Vec<Result<Resp, String>>) -> PanelTraffic {
    match fetch_traffic(&creds(), replies) {
        Fetch::Ask(c) => panic!("ask: {:?}", c),
        Fetch::Done(t) => t,
    }
}

fn error(replies: &Vec<Result<Resp, String>>) -> String {
    let t = done(replies);
    assert!(t.nodes.is_empty());
    t.error.unwrap()
}

fn node(up: i64, down: i64, total: i64) -> NodeTraffic {
    NodeTraffic { node: "n".to_string(), port: 1, client: String::new(), up, down, total }
}

#[test]
fn base_has_no_slash_at_its_end() {
    assert_eq!(creds().base(), "http://p:2054/base");
}

#[test]
fn three_calls_read_the_traffic() {
    let mut replies = Vec::new();
    let c = ask(&replies);
    assert_eq!((c.method.as_str(), c.url.as_str()), ("GET", "http://p:2054/base/csrf-token"));
    assert!(c.headers.is_empty() && c.body.is_none());

    replies.push(reply(200, &["s=1; Path=/", "t=2"], r#"{"obj":"tok"}"#));
    let c = ask(&replies);
    assert_eq!((c.method.as_str(), c.url.as_str()), ("POST", "http://p:2054/base/login"));
    assert_eq!(
        c.headers,
        vec![
            ("Content-Type".to_string(), "application/json".to_string()),
            ("X-CSRF-Token".to_string(), "tok".to_string()),
            ("Cookie".to_string(), "s=1; t=2".to_string()),
        ]
    );
    assert_eq!(c.body.unwrap(), r#"{"password":"se\"cret","username":"admin"}"#);

    replies.push(reply(200, &["s=9"], r#"{"success":true}"#));
    let c = ask(&replies);
    assert_eq!(
        (c.method.as_str(), c.url.as_str()),
        ("GET", "http://p:2054/base/panel/api/inbounds/list")
    );
    assert_eq!(c.headers, vec![("Cookie".to_string(), "s=9".to_string())]);

    replies.push(reply(
        200,
        &[],
        r#"{"success":true,"obj":[
            {"remark":"A","port":443,"up":1,"down":2,"total":3,"clientStats":[
                {"email":"x","up":10,"down":20,"total":100},{"email":"y","up":5,"down":5}]},
            {"remark":"B","port":8443,"up":7,"down":8,"total":9,"clientStats":[]}]}"#,
    ));
    let t = done(&replies);
    assert!(t.error.is_none());
    let got: Vec<_> =
        t.nodes.iter().map(|n| (n.node.as_str(), n.port, n.client.as_str(), n.up, n.down, n.total)).collect();
    assert_eq!(
        got,
        vec![("A", 443, "x", 10, 20, 100), ("A", 443, "y", 5, 5, 0), ("B", 8443, "", 7, 8, 9)]
    );
    assert_eq!((t.total_up(), t.total_down(), t.total_used(), t.total_quota()), (22, 33, 55, 109));
    assert!(t.countable());
}

#[test]
fn the_first_cookie_stays_where_the_login_sets_none() {
    let replies = vec![
        reply(200, &["s=1"], r#"{"obj":"tok"}"#),
        reply(200, &[], r#"{"success":"true"}"#),
    ];
    assert_eq!(ask(&replies).headers, vec![("Cookie".to_string(), "s=1".to_string())]);
    let replies = vec![reply(200, &[], r#"{"obj":"tok"}"#), reply(200, &[], r#"{"success":1}"#)];
    assert!(ask(&replies).headers.is_empty());
}

#[test]
fn each_failure_has_its_words() {
    let token = || reply(200, &[], r#"{"obj":"tok"}"#);
    let login = || reply(200, &[], r#"{"success":true}"#);
    assert_eq!(error(&vec![Err("no route".to_string())]), "no route");
    assert_eq!(error(&vec![reply(502, &[], "")]), "csrf-token HTTP 502");
    assert_eq!(error(&vec![reply(200, &[], "{")]), "csrf json: expected '\"' at 1");
    assert_eq!(error(&vec![reply(200, &[], r#"{"obj":5}"#)]), "empty csrf token");
    assert_eq!(error(&vec![token(), Err("timeout".to_string())]), "timeout");
    assert_eq!(error(&vec![token(), reply(403, &[], "")]), "login HTTP 403");
    assert_eq!(error(&vec![token(), reply(200, &[], "oops")]), "login failed: ?");
    assert_eq!(
        error(&vec![token(), reply(200, &[], r#"{"success":false,"msg":"wrong"}"#)]),
        "login failed: wrong"
    );
    assert_eq!(error(&vec![token(), login(), reply(404, &[], "")]), "inbounds HTTP 404");
    assert_eq!(
        error(&vec![token(), login(), reply(200, &[], "")]),
        "inbounds json: unexpected end of input"
    );
    assert_eq!(
        error(&vec![token(), login(), reply(200, &[], "{}")]),
        "inbounds API returned success=false"
    );
    let t = done(&vec![token(), login(), reply(200, &[], r#"{"success":true}"#)]);
    assert!(t.nodes.is_empty() && t.error.is_none());
}

#[test]
fn later_cookies_win() {
    assert_eq!(join_cookies(&vec!["a=1; Path=/", "b=2", " a=3 ;x"]), "a=3; b=2");
    assert_eq!(join_cookies(&vec!["", " ; x=1", "flag"]), "flag");
    assert_eq!(join_cookies(&vec![]), "");
    assert_eq!(join_cookies(&vec!["flag", "flag"]), "flag; flag");
}

#[test]
fn what_is_used_and_what_is_left() {
    assert_eq!(node(3, 4, 10).used(), 7);
    assert_eq!(node(3, 4, 10).remain(), 3);
    assert_eq!(node(8, 4, 10).remain(), 0);
    assert_eq!(node(1, 1, 0).remain(), 0);
    assert_eq!(node(1, 1, -5).remain(), 0);
}

#[test]
fn sums_that_do_not_fit_are_noticed() {
    let t = |nodes| PanelTraffic { nodes, error: None };
    assert!(t(vec![node(1, 2, i64::MAX), node(0, 0, 0)]).countable());
    assert!(!t(vec![node(1, 2, i64::MAX), node(0, 0, 1)]).countable());
    assert!(!t(vec![node(i64::MAX, 1, 0)]).countable());
    assert!(!t(vec![node(i64::MAX, 0, 0), node(1, 0, 0)]).countable());
    assert!(PanelTraffic::default().countable());
}

#[test]
fn what_is_used_is_the_sum_over_the_inbounds() {
    let replies = vec![
        reply(200, &[], r#"{"obj":"tok"}"#),
        reply(200, &[], r#"{"success":true}"#),
        reply(
            200,
            &[],
            r#"{"success":true,"obj":[
                {"up":15,"down":25,"clientStats":[{"up":10,"down":20},{"up":5,"down":5}]},
                {"up":7,"down":8}]}"#,
        ),
    ];
    assert_eq!(done(&replies).total_used(), (15 + 25) + (7 + 8));
}
