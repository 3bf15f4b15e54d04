use vps_probe::agent::{report, report_at};
use vps_probe::config::{load, Config};
use vps_probe::gui::HostForm;
use vps_probe::http::{Call, Intake, Request, Want};
use vps_probe::json::parse;
use vps_probe::launcher::{Launcher, Start};
use vps_probe::metrics::{collect, Readings};
use vps_probe::panel::{NodeTraffic, PanelTraffic};
use vps_probe::serve::{entry_from_json, poll_pause, Action, Answer, Saving, State};

fn config() -> Config {
    load(
        r#"{"key":"k","offline_after":60,"vps":[
            {"name":"a","manage_url":"http://m","panel":{"url":"http://p"},"quota":500},
            {"name":"b"}]}"#,
    )
    .unwrap()
}

fn state() -> State {
    State::new(config(), "/etc/c.json")
}

fn request(method: &str, path: &str, key: Option<&str>, body: &str) -> Request {
    Request {
        method: method.to_string(),
        path: path.to_string(),
        query: key.iter().map(|k| ("key".to_string(), k.to_string())).collect(),
        headers: vec![],
        body: body.to_string(),
    }
}

fn reply(a: Action) -> Answer {
    match a {
        Action::Reply(r) => r,
        Action::Save(s) => panic!("save: {:?}", s),
    }
}

fn saving(a: Action) -> Saving {
    match a {
        Action::Save(s) => s,
        Action::Reply(r) => panic!("reply: {:?}", r),
    }
}

fn get(s: &mut State, path: &str, t: u64) -> Answer {
    assert!(s.is_countable());
    reply(s.handle_at("<page>", &request("GET", path, None, ""), t))
}

fn names(s: &State) -> Vec<&str> {
    s.vps.iter().map(|v| v.name.as_str()).collect()
}

fn node(up: i64, down: i64, total: i64) -> NodeTraffic {
    NodeTraffic { node: "n".to_string(), port: 443, client: "c".to_string(), up, down, total }
}

#[test]
fn serves_the_page() {
    let mut s = state();
    for path in ["/", "/index.html"] {
        let r = get(&mut s, path, 0);
        assert_eq!((r.status, r.ctype, r.body.as_str()), (200, "text/html; charset=utf-8", "<page>"));
    }
}

#[test]
fn what_is_not_there_is_not_found() {
    let mut s = state();
    for (m, p) in [("GET", "/x"), ("POST", "/"), ("DELETE", "/api/hosts"), ("get", "/"), ("POST", "/api/data")] {
        let r = reply(s.handle_at("", &request(m, p, Some("k"), ""), 0));
        assert_eq!((r.status, r.ctype, r.body.as_str()), (404, "application/json", r#"{"error":"not found"}"#));
    }
}

#[test]
fn health() {
    let r = get(&mut state(), "/api/health", 0);
    assert_eq!((r.status, r.ctype, r.body.as_str()), (200, "application/json", r#"{"ok":true}"#));
}

#[test]
fn a_wrong_key_changes_nothing() {
    let mut s = state();
    let before = format!("{:?}", s);
    for (m, p) in [("POST", "/api/report"), ("POST", "/api/hosts"), ("DELETE", "/api/hosts/a")] {
        for key in [None, Some("x")] {
            let r = reply(s.handle_at("", &request(m, p, key, r#"{"name":"z"}"#), 0));
            assert_eq!((r.status, r.body.as_str()), (403, r#"{"ok":false,"error":"bad key"}"#));
        }
    }
    assert_eq!(format!("{:?}", s), before);
}

#[test]
fn a_report_shows_for_a_while() {
    let mut s = state();
    let body = r#"{"name":"a","cpu":12.5,"load":[1,2,3],"uptime":9,"ports":{"x":true}}"#;
    let r = reply(s.handle_at("", &request("POST", "/api/report", Some("k"), body), 1000));
    assert_eq!((r.status, r.body.as_str()), (200, r#"{"ok":true}"#));
    for (t, online) in [(1000, true), (1060, true), (1061, false), (10, true)] {
        let r = get(&mut s, "/api/data", t);
        assert_eq!((r.status, r.ctype), (200, "application/json; charset=utf-8"));
        let v = parse(&r.body).unwrap();
        assert_eq!(v.get("ts").unwrap().as_i64(), t as i64);
        let cards = v.get("vps").unwrap().as_arr();
        assert_eq!(cards.len(), 2);
        let a = cards[0];
        assert_eq!(a.get("online").unwrap().as_bool(), online);
        let m = a.get("metrics").unwrap();
        assert_eq!(m.get("cpu_percent").unwrap().to_string(), "12.5");
        assert_eq!(m.get("load15").unwrap().as_i64(), 3);
        assert_eq!(m.get("uptime_secs").unwrap().as_i64(), 9);
        assert!(!cards[1].get("online").unwrap().as_bool());
        assert!(cards[1].get("metrics").unwrap().is_null());
    }
}

#[test]
fn an_agents_report_reaches_the_page() {
    let m = collect(&Readings {
        stat: [None, None],
        dev: [None, None],
        meminfo: Some("MemTotal: 4 kB\nMemAvailable: 3 kB\n".to_string()),
        df: None,
        loadavg: Some("0.1 0.2 0.3".to_string()),
        uptime: None,
        os_release: None,
        issue: None,
        ostype: None,
        cores: 2,
        ports: vec![],
    });
    let mut s = state();
    let body = report("b", 5, &m).to_string();
    reply(s.handle_at("", &request("POST", "/api/report", Some("k"), &body), 7));
    let v = parse(&get(&mut s, "/api/data", 8).body).unwrap();
    let b = v.get("vps").unwrap().as_arr()[1];
    assert!(b.get("online").unwrap().as_bool());
    assert_eq!(b.get("metrics").unwrap().get("mem_percent").unwrap().to_string(), "25");
    assert_eq!(b.get("metrics").unwrap().get("load5").unwrap().to_string(), "0.2");
}

#[test]
fn a_report_without_a_name_is_kept_as_unknown() {
    let mut s = state();
    reply(s.handle_at("", &request("POST", "/api/report", Some("k"), "[]"), 1));
    assert_eq!(s.nodes.len(), 1);
    assert_eq!(s.nodes[0].0, "unknown");
    let r = reply(s.handle_at("", &request("POST", "/api/report", Some("k"), "[1"), 1));
    assert_eq!(r.status, 400);
    assert_eq!(r.body, r#"{"ok":false,"error":"invalid json: expected ',' or ']' at 2"}"#);
}

#[test]
fn the_clock_decides_without_a_given_time() {
    let mut s = state();
    let r = reply(s.handle("", &request("POST", "/api/report", Some("k"), r#"{"name":"a"}"#)));
    assert_eq!(r.status, 200);
    assert!(s.nodes[0].1 .0 > 1_577_836_800);
}

#[test]
fn lists_the_hosts() {
    let r = get(&mut state(), "/api/hosts", 0);
    assert_eq!((r.status, r.ctype), (200, "application/json; charset=utf-8"));
    assert_eq!(
        r.body,
        r#"[{"manage_url":"http://m","name":"a","panel":{"password":"","url":"http://p","username":"admin"},"port_check":[],"quota":500},{"manage_url":"","name":"b","panel":null,"port_check":[]}]"#
    );
}

#[test]
fn a_host_is_added_or_replaced_and_saved() {
    let mut s = state();
    let w = saving(s.handle_at("", &request("POST", "/api/hosts", Some("k"), r#"{"name":" c "}"#), 0));
    assert_eq!(w.path, "/etc/c.json");
    assert_eq!(names(&s), vec!["a", "b", "c"]);
    let w2 = saving(s.handle_at("", &request("POST", "/api/hosts", Some("k"), r#"{"name":"a","quota":1}"#), 0));
    assert_eq!(names(&s), vec!["a", "b", "c"]);
    assert_eq!((s.vps[0].quota, s.vps[0].panel.is_none()), (1, true));
    let c = load(&w2.text).unwrap();
    assert_eq!((c.key.as_str(), c.offline_after, c.vps.len()), ("k", 60, 3));
    assert_eq!(format!("{:?}", c.vps), format!("{:?}", s.vps));
    assert_eq!(w.answer(Ok(())).body, r#"{"ok":true}"#);
    let bad = w.answer(Err("disk full".to_string()));
    assert_eq!((bad.status, bad.body.as_str()), (500, r#"{"ok":false,"error":"disk full"}"#));
}

#[test]
fn a_host_needs_a_name() {
    let mut s = state();
    let r = reply(s.handle_at("", &request("POST", "/api/hosts", Some("k"), r#"{"name":"  "}"#), 0));
    assert_eq!((r.status, r.body.as_str()), (400, r#"{"ok":false,"error":"name 不能为空"}"#));
    let r = reply(s.handle_at("", &request("POST", "/api/hosts", Some("k"), "x"), 0));
    assert_eq!((r.status, r.body.as_str()), (400, r#"{"ok":false,"error":"invalid json: bad number: "}"#));
    assert_eq!(entry_from_json(&parse("{}").unwrap()).unwrap_err(), "name 不能为空");
    assert_eq!(names(&s), vec!["a", "b"]);
}

#[test]
fn a_host_is_removed_with_all_it_reported() {
    let mut s = state();
    s.store_report("a", 1, parse("{}").unwrap());
    s.store_report("b", 1, parse("{}").unwrap());
    s.store_traffic("a", PanelTraffic::default());
    let w = saving(s.handle_at("", &request("DELETE", "/api/hosts/%61", Some("k"), ""), 0));
    assert_eq!(w.removed, Some(true));
    assert_eq!(names(&s), vec!["b"]);
    assert_eq!((s.nodes.len(), s.traffic.len()), (1, 0));
    assert_eq!(load(&w.text).unwrap().vps.len(), 1);
    assert_eq!(w.answer(Ok(())).body, r#"{"ok":true,"removed":true}"#);
    let w = saving(s.handle_at("", &request("DELETE", "/api/hosts/zz", Some("k"), ""), 0));
    assert_eq!(w.answer(Ok(())).body, r#"{"ok":true,"removed":false}"#);
    assert_eq!(w.answer(Err("e".to_string())).status, 500);
}

#[test]
fn shows_traffic() {
    let mut s = state();
    let card = |s: &mut State, i: usize| {
        let v = parse(&get(s, "/api/data", 0).body).unwrap();
        let c = v.get("vps").unwrap().as_arr()[i].to_string();
        parse(&c).unwrap()
    };
    let a = card(&mut s, 0);
    assert_eq!(a.get("traffic_error").unwrap().as_str(), Some("尚未拉取（首次轮询进行中）"));
    assert!(a.get("panel_configured").unwrap().as_bool());
    let b = card(&mut s, 1);
    assert!(b.get("traffic_error").is_none() && b.get("traffic").is_none());
    assert!(!b.get("panel_configured").unwrap().as_bool());

    s.store_traffic("a", PanelTraffic { nodes: vec![node(1, 2, -3), node(10, 20, 0)], error: None });
    let t = card(&mut s, 0);
    assert_eq!(
        t.get("traffic").unwrap().to_string(),
        r#"{"nodes":[{"client":"c","down":2,"node":"n","port":443,"total":0,"up":1},{"client":"c","down":20,"node":"n","port":443,"total":0,"up":10}],"quota":500,"used":33}"#
    );
    s.store_traffic("a", PanelTraffic { nodes: vec![node(1, 2, 7)], error: None });
    assert_eq!(card(&mut s, 0).get("traffic").unwrap().get("quota").unwrap().as_i64(), 7);
    s.store_traffic("a", PanelTraffic { nodes: vec![], error: Some("down".to_string()) });
    assert_eq!(card(&mut s, 0).get("traffic_error").unwrap().as_str(), Some("down"));
}

#[test]
fn traffic_that_does_not_fit_is_noticed() {
    let mut s = state();
    s.store_traffic("a", PanelTraffic { nodes: vec![node(i64::MAX, 1, 0)], error: None });
    assert!(!s.is_countable());
    s.store_traffic("a", PanelTraffic { nodes: vec![node(i64::MAX, 1, 0)], error: Some(String::new()) });
    assert!(s.is_countable());
}

#[test]
fn rounds_are_at_least_half_a_minute_apart() {
    assert_eq!(poll_pause(0), 30);
    assert_eq!(poll_pause(300), 300);
}

/// What a server reads of a call.
fn arrive(c: &Call) -> Request {
    let text = c.outgoing().unwrap().text;
    let at = text.find("\r\n\r\n").unwrap() + 4;
    let mut r = Intake::new();
    for l in text[..at].split_inclusive('\n') {
        r.line(Some(l));
    }
    if let Want::Bytes(n) = r.want() {
        r.bytes(&text.as_bytes()[at..at + n].to_vec());
    }
    r.finish()
}

#[test]
fn the_call_of_an_agent_is_accepted() {
    let m = collect(&Readings {
        stat: [None, None],
        dev: [None, None],
        meminfo: None,
        df: None,
        loadavg: None,
        uptime: None,
        os_release: None,
        issue: None,
        ostype: None,
        cores: 2,
        ports: vec![],
    });
    let mut s = state();
    let q = arrive(&report_at("http://d:8899/", "k", "a", 5, &m));
    assert_eq!(reply(s.handle_at("", &q, 9)).status, 200);
    assert_eq!((s.nodes[0].0.as_str(), s.nodes[0].1 .0), ("a", 9));
    // A plus sign in a key stands for a blank.
    s.base.key = "k+1".to_string();
    let q = arrive(&report_at("http://d:8899/", "k+1", "a", 5, &m));
    assert_eq!(reply(s.handle_at("", &q, 9)).status, 403);
}

#[test]
fn the_calls_of_the_launcher_reach_the_host() {
    for name in ["x y/z?", "香港", "é+%41"] {
        let mut s = state();
        let mut w = Launcher::new(None);
        w.key = " k ".to_string();
        w.serve_start(Start::Running);
        w.add_click();
        w.editor = HostForm { name: name.to_string(), ..HostForm::default() };
        let q = arrive(&w.save_click().unwrap());
        saving(s.handle_at("", &q, 0));
        assert_eq!(names(&s), vec!["a", "b", name]);
        s.store_report(name, 1, parse("{}").unwrap());
        s.store_traffic(name, PanelTraffic::default());
        w.host_reply(&Ok(vps_probe::http::Resp { status: 200, headers: vec![], body: String::new() }));
        let q = arrive(&w.delete_click(0).unwrap());
        let saved = saving(s.handle_at("", &q, 0));
        assert_eq!(saved.removed, Some(true));
        assert_eq!(saved.answer(Ok(())).body, r#"{"ok":true,"removed":true}"#);
        assert_eq!(load(&saved.text).unwrap().vps.len(), 2);
        assert_eq!(names(&s), vec!["a", "b"]);
        assert!(s.nodes.is_empty() && s.traffic.is_empty());
    }
}

#[test]
fn a_host_beyond_ascii_is_removed() {
    let mut s = state();
    saving(s.handle_at("", &request("POST", "/api/hosts", Some("k"), r#"{"name":"香港"}"#), 0));
    assert_eq!(names(&s), vec!["a", "b", "香港"]);
    let w = saving(s.handle_at("", &request("DELETE", "/api/hosts/%E9%A6%99%E6%B8%AF", Some("k"), ""), 0));
    assert_eq!(w.removed, Some(true));
    assert_eq!(names(&s), vec!["a", "b"]);
}
