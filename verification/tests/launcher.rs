use vps_probe::cli::{arg, command, has, interval, port_list, template, usage, version, Command};
use vps_probe::config::{dump, hosts_to_json, load, Config, VpsEntry};
use vps_probe::gui::{parse_hosts, HostForm};
use vps_probe::http::Resp;
use vps_probe::json::parse;
use vps_probe::launcher::{push_line, row_text, Launcher, Start};
use vps_probe::panel::PanelCreds;
use vps_probe::sent::jstr;
use vps_probe::serve::entry_from_json;
use vps_probe::web::page;

fn form(name: &str) -> HostForm {
    HostForm {
        name: name.to_string(),
        manage_url: " http://m ".to_string(),
        panel_url: " http://p".to_string(),
        panel_user: " u ".to_string(),
        panel_pass: " \"p\\ ".to_string(),
        port_check: "a:1, b:2;c:3".to_string(),
        quota: " 42 ".to_string(),
    }
}

fn entry() -> VpsEntry {
    VpsEntry {
        name: "n".to_string(),
        manage_url: "http://m".to_string(),
        panel: Some(PanelCreds {
            url: "http://p".to_string(),
            username: "u".to_string(),
            password: " x ".to_string(),
        }),
        port_check: vec!["a:1".to_string(), "b:2".to_string()],
        quota: 7,
    }
}

fn reply(status: u16, body: &str) -> Result<Resp, String> {
    Ok(Resp { status, headers: vec![], body: body.to_string() })
}

fn text<T: std::fmt::Debug>(x: &T) -> String {
    format!("{:?}", x)
}

#[test]
fn a_form_describes_a_host() {
    let e = form(" n ").to_entry();
    assert_eq!((e.name.as_str(), e.manage_url.as_str(), e.quota), ("n", "http://m", 42));
    let p = e.panel.unwrap();
    assert_eq!((p.url.as_str(), p.username.as_str(), p.password.as_str()), ("http://p", "u", " \"p\\ "));
    assert_eq!(e.port_check, vec!["a:1", "b:2", "c:3"]);
    let e = HostForm::default().to_entry();
    assert!(e.panel.is_none() && e.port_check.is_empty());
    assert_eq!(e.quota, 0);
}

#[test]
fn a_form_is_written_for_the_dashboard() {
    assert_eq!(
        form("n").host_to_json(),
        "{\"name\":\"n\",\"manage_url\":\" http://m \",\"panel\":{\"url\":\" http://p\",\"username\":\" u \",\
         \"password\":\" \\\"p\\\\ \"},\"port_check\":[\"a:1\",\"b:2\",\"c:3\"],\"quota\":42}"
    );
    assert_eq!(
        HostForm::default().host_to_json(),
        r#"{"name":"","manage_url":"","panel":null,"port_check":[],"quota":0}"#
    );
    assert_eq!(jstr("a\"b\\c\n"), "\"a\\\"b\\\\c\n\"");
}

#[test]
fn a_form_that_was_sent_arrives() {
    let v = parse(&form(" 香 ").host_to_json()).unwrap();
    let e = entry_from_json(&v).unwrap();
    assert_eq!((e.name.as_str(), e.manage_url.as_str(), e.quota), ("香", " http://m ", 42));
    let p = e.panel.unwrap();
    assert_eq!((p.url.as_str(), p.username.as_str(), p.password.as_str()), (" http://p", " u ", " \"p\\ "));
    assert_eq!(e.port_check, vec!["a:1", "b:2", "c:3"]);
}

#[test]
fn a_host_comes_back_from_its_form() {
    assert_eq!(text(&HostForm::from_entry(&entry()).to_entry()), text(&entry()));
    let f = HostForm::from_entry(&VpsEntry { panel: None, quota: 0, ..entry() });
    assert_eq!((f.panel_url.as_str(), f.quota.as_str(), f.port_check.as_str()), ("", "", "a:1,b:2"));
}

#[test]
fn the_list_of_the_dashboard_fills_the_forms() {
    let forms = parse_hosts(&hosts_to_json(&vec![entry()]).to_string());
    assert_eq!(forms.len(), 1);
    assert_eq!(text(&forms[0].to_entry()), text(&entry()));
    let forms = parse_hosts(r#"[{"panel":{"url":"u"},"port_check":["x",5,"y"]},7]"#);
    assert_eq!((forms[0].panel_url.as_str(), forms[0].panel_user.as_str()), ("u", ""));
    assert_eq!((forms[0].port_check.as_str(), forms[0].quota.as_str()), ("x,y", "0"));
    assert_eq!(forms[1].name, "");
    assert!(parse_hosts("{}").is_empty());
    assert!(parse_hosts("[").is_empty());
}

#[test]
fn the_window_at_the_start() {
    let w = Launcher::new(None);
    assert_eq!((w.title.as_str(), w.listen.as_str(), w.status.as_str()), ("我的 VPS 监控面板", "0.0.0.0:8899", "就绪"));
    assert!(w.hosts.is_empty() && !w.serve_running && !w.agent_running && !w.editor_open);
    let mut c = Config::default();
    c.vps.push(entry());
    c.refresh = 9;
    let w = Launcher::new(Some(&c));
    assert_eq!((w.title.as_str(), w.refresh.as_str()), ("VPS 探针", "9"));
    assert_eq!(text(&w.build_config()), text(&c));
}

#[test]
fn the_window_describes_a_configuration() {
    let mut w = Launcher::new(None);
    w.listen = " 1.2.3.4:5 ".to_string();
    w.refresh = "x".to_string();
    w.offline_after = " 30 ".to_string();
    let c = w.build_config();
    assert_eq!((c.listen.as_str(), c.refresh, c.offline_after, c.panel_interval), ("1.2.3.4:5", 5, 30, 300));
}

#[test]
fn the_port() {
    let mut w = Launcher::new(None);
    assert_eq!(w.listen_port(), 8899);
    for (l, p) in [("h:81", 81), ("82", 82), ("h:x", 8899), ("h:1:2", 2), ("h:70000", 8899), ("h:81 ", 8899)] {
        w.listen = l.to_string();
        assert_eq!(w.listen_port(), p, "{}", l);
    }
    w.listen = "x:1".to_string();
    assert_eq!(w.page_url(), "http://127.0.0.1:1");
}

#[test]
fn the_arguments_of_the_agent() {
    let mut w = Launcher::new(None);
    w.agent_server = " http://s ".to_string();
    assert_eq!(w.agent_args(), vec!["agent", "--server", "http://s", "--key", "change-me"]);
    w.agent_name = " n ".to_string();
    w.agent_interval = " 60 ".to_string();
    w.agent_ports = "a:1".to_string();
    assert_eq!(
        w.agent_args(),
        vec![
            "agent", "--server", "http://s", "--key", "change-me", "--name", "n", "--interval", "60", "--port-check",
            "a:1"
        ]
    );
    w.agent_interval = "abc".to_string();
    assert!(!w.agent_args().contains(&"--interval".to_string()));
}

#[test]
fn saving_without_a_dashboard() {
    let mut w = Launcher::new(None);
    w.add_click();
    assert!(w.editor_open && w.editing.is_none());
    assert!(w.save_click().is_none());
    assert_eq!((w.status.as_str(), w.editor_open), ("名称不能为空", true));
    w.editor = form("a");
    assert!(w.save_click().is_none());
    assert_eq!((w.hosts.len(), w.editor_open, w.status.as_str()), (1, false, "已保存服务器"));
    w.edit_click(0);
    assert_eq!((w.editor.name.as_str(), w.editing), ("a", Some(0)));
    w.editor.name = "b".to_string();
    w.save_click();
    assert_eq!((w.hosts.len(), w.hosts[0].name.as_str()), (1, "b"));
    w.edit_click(0);
    w.close_editor();
    assert!(!w.editor_open && w.editing.is_none());
}

#[test]
fn saving_with_a_dashboard() {
    let mut w = Launcher::new(None);
    w.serve_start(Start::Running);
    assert_eq!(w.status, "面板已启动 → http://0.0.0.0:8899");
    w.add_click();
    w.editor = form("a");
    let c = w.save_click().unwrap();
    assert_eq!((c.method.as_str(), c.url.as_str()), ("POST", "http://127.0.0.1:8899/api/hosts?key=change-me"));
    assert_eq!(c.body.unwrap(), form("a").host_to_json());
    assert!(w.hosts.is_empty() && w.editor_open);
    w.host_reply(&reply(403, ""));
    assert_eq!((w.status.as_str(), w.hosts.len()), ("添加主机失败：HTTP 403", 0));
    w.host_reply(&Err("no route".to_string()));
    assert_eq!(w.status, "添加主机失败：no route");
    w.host_reply(&reply(200, ""));
    assert_eq!((w.status.as_str(), w.hosts.len(), w.editor_open), ("已保存服务器", 1, false));
}

#[test]
fn deleting() {
    let mut w = Launcher::new(None);
    w.hosts.push(form("a b"));
    w.hosts.push(form("c"));
    assert!(w.delete_click(1).is_none());
    w.serve_start(Start::Running);
    let c = w.delete_click(0).unwrap();
    assert_eq!(
        (c.method.as_str(), c.url.as_str()),
        ("DELETE", "http://127.0.0.1:8899/api/hosts/a%20b?key=change-me")
    );
    assert!(c.body.is_none() && w.hosts.is_empty());
}

#[test]
fn refreshing() {
    let mut w = Launcher::new(None);
    assert!(w.refresh_click().is_none());
    assert_eq!(w.status, "面板未运行，无法刷新");
    w.serve_start(Start::Running);
    let c = w.refresh_click().unwrap();
    assert_eq!((c.method.as_str(), c.url.as_str()), ("GET", "http://127.0.0.1:8899/api/hosts"));
    w.list_reply(&reply(200, r#"[{"name":"a"},{"name":"b"}]"#));
    assert_eq!((w.status.as_str(), w.hosts.len()), ("已刷新，共 2 台", 2));
    w.list_reply(&reply(500, ""));
    assert_eq!((w.status.as_str(), w.hosts.len()), ("刷新失败：HTTP 500", 2));
    w.list_reply(&Err("x".to_string()));
    assert_eq!(w.status, "刷新失败：x");
}

#[test]
fn starting_and_stopping() {
    let mut w = Launcher::new(None);
    w.serve_start(Start::NoConfig("full".to_string()));
    assert_eq!((w.status.as_str(), w.serve_running), ("写配置失败：full", false));
    w.serve_start(Start::NoProcess("gone".to_string()));
    assert_eq!((w.status.as_str(), w.serve_running), ("启动失败：gone", false));
    w.serve_start(Start::Running);
    w.serve_stop();
    assert_eq!((w.status.as_str(), w.serve_running), ("面板已停止", false));
    assert!(w.agent_click());
    w.agent_start(Some("e".to_string()));
    assert_eq!((w.status.as_str(), w.agent_running), ("启动失败：e", false));
    w.agent_start(None);
    assert_eq!((w.status.as_str(), w.agent_running), ("Agent 已启动 → http://127.0.0.1:8899", true));
    w.agent_stop();
    assert_eq!((w.status.as_str(), w.agent_running), ("Agent 已停止", false));
    w.agent_server = " ".to_string();
    assert!(!w.agent_click());
    assert_eq!(w.status, "请填写面板地址");
}

#[test]
fn rows() {
    assert_eq!(row_text(&form("a")), "a  （含流量面板）  端口:a:1, b:2;c:3");
    assert_eq!(row_text(&HostForm::default()), "  （无面板）  ");
}

#[test]
fn the_log_keeps_the_latest_lines() {
    let mut log = Vec::new();
    for i in 0..605 {
        push_line(&mut log, i.to_string());
        assert!(log.len() <= 600);
    }
    assert_eq!((log.len(), log[0].as_str(), log[599].as_str()), (600, "5", "604"));
}

fn args(a: &[&str]) -> Vec<String> {
    a.iter().map(|s| s.to_string()).collect()
}

#[test]
fn commands() {
    assert_eq!(command(&args(&["p", "serve"])), Command::Serve);
    assert_eq!(command(&args(&["p", "agent", "x"])), Command::Agent);
    assert_eq!(command(&args(&["p", "init"])), Command::Init);
    for v in ["version", "--version", "-V"] {
        assert_eq!(command(&args(&["p", v])), Command::Version);
    }
    assert_eq!(command(&args(&["p"])), Command::Help);
    assert_eq!(command(&args(&["p", "x"])), Command::Help);
    assert_eq!(version(), "vps-probe 2.1.0");
    assert!(usage().starts_with("vps-probe 2.1.0  — 轻量 VPS 探针"));
    assert!(usage().ends_with("--interval 30 --port-check 38.47.108.240:39999\n"));
}

#[test]
fn flags() {
    let a = args(&["--key", "agent", "--server", "s", "--key=k=1", "--name", "--once"]);
    assert_eq!(arg(&a, "--server").as_deref(), Some("s"));
    assert_eq!(arg(&a, "--key").as_deref(), Some("k=1"));
    assert_eq!(arg(&a, "--name").as_deref(), Some("--once"));
    assert_eq!(arg(&a, "--once"), None);
    assert_eq!(arg(&a, "--ser"), None);
    assert_eq!(arg(&a, "--x"), None);
    assert!(has(&a, "--once"));
    assert!(!has(&a, "--key"));
}

#[test]
fn agent_options() {
    assert_eq!(interval(None), 30);
    assert_eq!(interval(Some("x")), 30);
    assert_eq!(interval(Some("60")), 60);
    assert_eq!(interval(Some("1")), 5);
    assert_eq!(port_list(Some("a:1,, b:2;c:3 ")), vec!["a:1", "b:2", "c:3"]);
    assert!(port_list(None).is_empty());
}

#[test]
fn the_template_can_be_loaded() {
    let c = template();
    assert_eq!(c.vps.len(), 2);
    assert_eq!((c.vps[0].name.as_str(), c.vps[1].name.as_str()), ("HK-VPS", "JP-VPS"));
    assert_eq!(c.vps[0].panel.as_ref().unwrap().url, "http://38.47.108.240:2054/你的webBasePath");
    assert_eq!(c.vps[1].port_check, vec!["140.235.37.110:29214"]);
    assert_eq!(text(&load(&dump(&c)).unwrap()), text(&c));
}

#[test]
fn fills_in_the_page() {
    assert_eq!(
        page("<t>{{TITLE}}</t>{{REFRESH}} {{KEY}} {{TITLE}} {{X}}", "T", 5, "a\"b"),
        "<t>T</t>5 \"a\\\"b\" T {{X}}"
    );
}
